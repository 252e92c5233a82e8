//! The hyperparameter search: the grid of candidates, the course of one
//! search run, the choice of the best candidate, and the artifact that
//! carries the winning model.

use vstd::prelude::*;
use crate::als::{
    data_verdict, fit_verdict, has_shape, observed_products, rows_of, ModelError, ALS,
};
use crate::evaluation::{
    lemma_lower_asymmetric, lemma_lower_irreflexive, lemma_lower_transitive, pairs_upto,
    rank_sum_upto, Epr, Fitted,
};
use crate::index::{numbers_densely, pair_texts, texts};
use crate::matrix::{
    assemble, clients_of, quantities_valid, Interaction, InteractionMatrix, RowModel,
};
use crate::scalar::Scalar;

verus! {

/// The hyperparameters of one candidate model.
#[derive(Clone, Copy, Debug, PartialEq, Eq, Structural)]
pub struct Hyperparameters {
    pub num_factors: usize,
    pub regularization: Scalar,
    pub confidence_multiplier: Scalar,
}

/// The model artifact: everything that is written to disk for a trained
/// model and read back by the server.
pub struct JSONData {
    pub hyperparameters: Hyperparameters,
    pub matrix: InteractionMatrix,
    pub product_factors: Vec<Vec<Scalar>>,
    pub client_factors: Vec<Vec<Scalar>>,
    pub client_index: Vec<(String, usize)>,
    pub product_index: Vec<(String, usize)>,
}

/// Change of the factors below which training stops: the bits of 0.0001.
pub const TOLERANCE_BITS: u64 = 0x3F1A_36E2_EB1C_432D;

/// Largest number of training rounds of a candidate.
pub const SEARCH_MAX_ITERATIONS: usize = 200;

/// Place in the grid of the candidate made of the `i`-th number of factors,
/// the `j`-th regularization and the `k`-th confidence multiplier, where
/// there are `b` regularizations and `c` confidence multipliers.
pub open spec fn grid_place(b: int, c: int, i: int, j: int, k: int) -> int {
    (i * b + j) * c + k
}

/// Places in the grid follow the order of the triples.
pub proof fn lemma_grid_place_order(b: int, c: int, i: int, j: int, k: int, i2: int, j2: int, k2: int)
    requires
        0 <= i,
        0 <= j < b,
        0 <= k < c,
        0 <= i2,
        0 <= j2 < b,
        0 <= k2 < c,
        i < i2 || (i == i2 && j < j2) || (i == i2 && j == j2 && k < k2),
    ensures
        0 <= grid_place(b, c, i, j, k) < grid_place(b, c, i2, j2, k2),
{
    assert(0 <= (i * b + j) * c) by (nonlinear_arith)
        requires
            0 <= i,
            0 <= j < b,
            0 <= c,
    ;
    if i == i2 && j == j2 {
    } else {
        assert(i * b + j + 1 <= i2 * b + j2) by (nonlinear_arith)
            requires
                0 <= i,
                0 <= j < b,
                0 <= j2 < b,
                i < i2 || (i == i2 && j < j2),
        ;
        assert((i * b + j) * c + c <= (i2 * b + j2) * c) by (nonlinear_arith)
            requires
                i * b + j + 1 <= i2 * b + j2,
                0 <= c,
        ;
    }
}

/// The grid has as many places as there are triples.
pub proof fn lemma_grid_size(a: int, b: int, c: int)
    requires
        0 <= a,
        0 <= b,
        0 <= c,
    ensures
        grid_place(b, c, a, 0, 0) == a * b * c,
{
    assert((a * b + 0) * c + 0 == a * b * c) by (nonlinear_arith);
}

/// The grid holds every combination of the given values, each at its place.
pub open spec fn is_grid_of(
    grid: Seq<Hyperparameters>,
    num_factors: Seq<usize>,
    regularization: Seq<Scalar>,
    confidence_multiplier: Seq<Scalar>,
) -> bool {
    &&& grid.len() == num_factors.len() * regularization.len() * confidence_multiplier.len()
    &&& forall|i: int, j: int, k: int|
        0 <= i < num_factors.len() && 0 <= j < regularization.len() && 0 <= k
            < confidence_multiplier.len() ==> {
            &&& 0 <= #[trigger] grid_place(
                regularization.len() as int,
                confidence_multiplier.len() as int,
                i,
                j,
                k,
            ) < grid.len()
            &&& grid[grid_place(
                regularization.len() as int,
                confidence_multiplier.len() as int,
                i,
                j,
                k,
            )] == (Hyperparameters {
                num_factors: num_factors[i],
                regularization: regularization[j],
                confidence_multiplier: confidence_multiplier[k],
            })
        }
}

/// The numbers of factors that a search tries.
pub open spec fn default_num_factors() -> Seq<usize> {
    seq![20usize, 50usize, 100usize, 200usize]
}

/// The regularizations that a search tries: the bits of 0.01 and of 0.1.
pub open spec fn default_regularization() -> Seq<Scalar> {
    seq![Scalar { bits: 0x3F84_7AE1_47AE_147B }, Scalar { bits: 0x3FB9_9999_9999_999A }]
}

/// The confidence multipliers that a search tries: the bits of 20, 40 and 60.
pub open spec fn default_confidence_multiplier() -> Seq<Scalar> {
    seq![
        Scalar { bits: 0x4034_0000_0000_0000 },
        Scalar { bits: 0x4044_0000_0000_0000 },
        Scalar { bits: 0x404E_0000_0000_0000 },
    ]
}

/// Enumerates every combination of the given values: the numbers of factors
/// vary slowest, the confidence multipliers fastest.
pub fn generate_hyperparameter_combinations(
    num_factors: &[usize],
    regularization: &[Scalar],
    confidence_multiplier: &[Scalar],
) -> (grid: Vec<Hyperparameters>)
    ensures
        is_grid_of(grid@, num_factors@, regularization@, confidence_multiplier@),
{
    let a: usize = num_factors.len();
    let b: usize = regularization.len();
    let c: usize = confidence_multiplier.len();
    let mut grid: Vec<Hyperparameters> = Vec::new();
    let mut i: usize = 0;
    proof {
        lemma_grid_size(0, b as int, c as int);
        assert(0 * b * c == 0) by (nonlinear_arith);
    }
    while i < a
        invariant
            a == num_factors@.len(),
            b == regularization@.len(),
            c == confidence_multiplier@.len(),
            0 <= i <= a,
            grid@.len() == grid_place(b as int, c as int, i as int, 0, 0),
            forall|i2: int, j2: int, k2: int|
                0 <= i2 < i && 0 <= j2 < b && 0 <= k2 < c ==> {
                    &&& 0 <= #[trigger] grid_place(b as int, c as int, i2, j2, k2) < grid@.len()
                    &&& grid@[grid_place(b as int, c as int, i2, j2, k2)] == (Hyperparameters {
                        num_factors: num_factors@[i2],
                        regularization: regularization@[j2],
                        confidence_multiplier: confidence_multiplier@[k2],
                    })
                },
        decreases a - i,
    {
        let mut j: usize = 0;
        while j < b
            invariant
                a == num_factors@.len(),
                b == regularization@.len(),
                c == confidence_multiplier@.len(),
                i < a,
                0 <= j <= b,
                grid@.len() == grid_place(b as int, c as int, i as int, j as int, 0),
                forall|i2: int, j2: int, k2: int|
                    0 <= i2 && 0 <= j2 < b && 0 <= k2 < c && (i2 < i || (i2 == i && j2 < j)) ==> {
                        &&& 0 <= #[trigger] grid_place(b as int, c as int, i2, j2, k2) < grid@.len()
                        &&& grid@[grid_place(b as int, c as int, i2, j2, k2)] == (Hyperparameters {
                            num_factors: num_factors@[i2],
                            regularization: regularization@[j2],
                            confidence_multiplier: confidence_multiplier@[k2],
                        })
                    },
            decreases b - j,
        {
            let mut k: usize = 0;
            while k < c
                invariant
                    a == num_factors@.len(),
                    b == regularization@.len(),
                    c == confidence_multiplier@.len(),
                    i < a,
                    j < b,
                    0 <= k <= c,
                    grid@.len() == grid_place(b as int, c as int, i as int, j as int, k as int),
                    forall|i2: int, j2: int, k2: int|
                        0 <= i2 && 0 <= j2 < b && 0 <= k2 < c && (i2 < i || (i2 == i && j2 < j) || (
                        i2 == i && j2 == j && k2 < k)) ==> {
                            &&& 0 <= #[trigger] grid_place(b as int, c as int, i2, j2, k2)
                                < grid@.len()
                            &&& grid@[grid_place(b as int, c as int, i2, j2, k2)] == (Hyperparameters {
                                num_factors: num_factors@[i2],
                                regularization: regularization@[j2],
                                confidence_multiplier: confidence_multiplier@[k2],
                            })
                        },
                decreases c - k,
            {
                let ghost before = grid@;
                grid.push(
                    Hyperparameters {
                        num_factors: num_factors[i],
                        regularization: regularization[j],
                        confidence_multiplier: confidence_multiplier[k],
                    },
                );
                proof {
                    assert forall|i2: int, j2: int, k2: int|
                        0 <= i2 && 0 <= j2 < b && 0 <= k2 < c && (i2 < i || (i2 == i && j2 < j) || (
                        i2 == i && j2 == j && k2 < k + 1)) implies {
                        &&& 0 <= #[trigger] grid_place(b as int, c as int, i2, j2, k2)
                            < grid@.len()
                        &&& grid@[grid_place(b as int, c as int, i2, j2, k2)] == (Hyperparameters {
                            num_factors: num_factors@[i2],
                            regularization: regularization@[j2],
                            confidence_multiplier: confidence_multiplier@[k2],
                        })
                    } by {
                        if i2 == i && j2 == j && k2 == k {
                        } else {
                            lemma_grid_place_order(
                                b as int,
                                c as int,
                                i2,
                                j2,
                                k2,
                                i as int,
                                j as int,
                                k as int,
                            );
                            assert(grid@[grid_place(b as int, c as int, i2, j2, k2)]
                                == before[grid_place(b as int, c as int, i2, j2, k2)]);
                        }
                    }
                }
                k += 1;
            }
            proof {
                assert(grid_place(b as int, c as int, i as int, j as int, c as int) == grid_place(
                    b as int,
                    c as int,
                    i as int,
                    j + 1,
                    0,
                )) by (nonlinear_arith);
            }
            j += 1;
        }
        proof {
            assert(grid_place(b as int, c as int, i as int, b as int, 0) == grid_place(
                b as int,
                c as int,
                i + 1,
                0,
                0,
            )) by (nonlinear_arith);
        }
        i += 1;
    }
    proof {
        lemma_grid_size(a as int, b as int, c as int);
    }
    grid
}

/// The grid that a search tries: 20, 50, 100 or 200 factors; regularization
/// 0.01 or 0.1; confidence multiplier 20, 40 or 60.
pub fn default_grid() -> (grid: Vec<Hyperparameters>)
    ensures
        grid@.len() == 24,
        is_grid_of(
            grid@,
            default_num_factors(),
            default_regularization(),
            default_confidence_multiplier(),
        ),
{
    let num_factors: [usize; 4] = [20, 50, 100, 200];
    let regularization: [Scalar; 2] = [
        Scalar { bits: 0x3F84_7AE1_47AE_147B },
        Scalar { bits: 0x3FB9_9999_9999_999A },
    ];
    let confidence_multiplier: [Scalar; 3] = [
        Scalar { bits: 0x4034_0000_0000_0000 },
        Scalar { bits: 0x4044_0000_0000_0000 },
        Scalar { bits: 0x404E_0000_0000_0000 },
    ];
    assert(num_factors@ =~= default_num_factors());
    assert(regularization@ =~= default_regularization());
    assert(confidence_multiplier@ =~= default_confidence_multiplier());
    generate_hyperparameter_combinations(
        num_factors.as_slice(),
        regularization.as_slice(),
        confidence_multiplier.as_slice(),
    )
}

/// The evaluation of a candidate counts: the candidate gave one, and it is a
/// fraction with a denominator.
pub open spec fn scored(outcome: Option<Epr>) -> bool {
    outcome matches Some(e) && e.valid()
}

/// Candidate `i` has the lowest evaluation of all that count, and is the
/// first of those that have it.
pub open spec fn is_best(outcomes: Seq<Option<Epr>>, i: int) -> bool {
    &&& 0 <= i < outcomes.len()
    &&& scored(outcomes[i])
    &&& forall|j: int|
        0 <= j < outcomes.len() && scored(#[trigger] outcomes[j]) ==> {
            &&& !outcomes[j].unwrap().lower(outcomes[i].unwrap())
            &&& (j < i ==> outcomes[i].unwrap().lower(outcomes[j].unwrap()))
        }
}

/// Chooses the candidate with the lowest expected percentile rank, the first
/// of them where several share it. Candidates without an evaluation are left
/// out; `None` where no candidate has one.
pub fn select_best(outcomes: &Vec<Option<Epr>>) -> (best: Option<usize>)
    ensures
        best.is_none() == (forall|j: int| 0 <= j < outcomes@.len() ==> !scored(#[trigger] outcomes@[j])),
        best matches Some(i) ==> is_best(outcomes@, i as int),
{
    let mut best: Option<usize> = None;
    let mut lowest: Epr = Epr::zero();
    let mut j: usize = 0;
    while j < outcomes.len()
        invariant
            0 <= j <= outcomes@.len(),
            best.is_none() == (forall|a: int| 0 <= a < j ==> !scored(#[trigger] outcomes@[a])),
            best matches Some(i) ==> {
                &&& i < j
                &&& scored(outcomes@[i as int])
                &&& lowest == outcomes@[i as int].unwrap()
                &&& forall|a: int|
                    0 <= a < j && scored(#[trigger] outcomes@[a]) ==> {
                        &&& !outcomes@[a].unwrap().lower(lowest)
                        &&& (a < i ==> lowest.lower(outcomes@[a].unwrap()))
                    }
            },
        decreases outcomes@.len() - j,
    {
        match &outcomes[j] {
            None => {
                assert(!scored(outcomes@[j as int]));
            },
            Some(e) => {
                if e.is_valid() {
                    assert(scored(outcomes@[j as int]));
                    let better: bool = match best {
                        None => true,
                        Some(_) => e.lower_than(&lowest),
                    };
                    if better {
                        proof {
                            if best.is_some() {
                                assert forall|a: int|
                                    0 <= a < j + 1 && scored(#[trigger] outcomes@[a]) implies {
                                    &&& !outcomes@[a].unwrap().lower(*e)
                                    &&& (a < j ==> e.lower(outcomes@[a].unwrap()))
                                } by {
                                    if a < j {
                                        lemma_lower_transitive(*e, lowest, outcomes@[a].unwrap());
                                        lemma_lower_asymmetric(*e, outcomes@[a].unwrap());
                                    } else {
                                        lemma_lower_irreflexive(*e);
                                    }
                                }
                            } else {
                                lemma_lower_irreflexive(*e);
                            }
                        }
                        best = Some(j);
                        lowest = *e;
                    }
                } else {
                    assert(!scored(outcomes@[j as int]));
                }
            },
        }
        j += 1;
    }
    best
}

/// Number of candidates that are finished among the first `upto`.
pub open spec fn count_done(done: Seq<bool>, upto: int) -> nat
    decreases upto,
{
    if upto <= 0 {
        0
    } else {
        count_done(done, upto - 1) + if done[upto - 1] {
            1nat
        } else {
            0nat
        }
    }
}

/// Where only candidates below `started` are finished, no more than
/// `started` are: a search that hands out nothing more finishes at most the
/// candidates it has handed out.
pub proof fn lemma_done_within_started(done: Seq<bool>, started: int, upto: int)
    requires
        0 <= started,
        0 <= upto <= done.len(),
        forall|i: int| 0 <= i < done.len() && #[trigger] done[i] ==> i < started,
    ensures
        count_done(done, upto) <= started,
        count_done(done, upto) <= upto,
    decreases upto,
{
    if upto > 0 {
        lemma_done_within_started(done, started, upto - 1);
        if upto > started {
            lemma_done_within_started(done, started, started);
            lemma_none_done_beyond(done, started, upto);
        }
    }
}

proof fn lemma_none_done_beyond(done: Seq<bool>, started: int, upto: int)
    requires
        0 <= started <= upto <= done.len(),
        forall|i: int| 0 <= i < done.len() && #[trigger] done[i] ==> i < started,
    ensures
        count_done(done, upto) == count_done(done, started),
    decreases upto - started,
{
    if upto > started {
        lemma_none_done_beyond(done, started, upto - 1);
    }
}

/// What training hands in for one candidate: the factor rows of the clients
/// and of the products, and the score of every product for every client.
pub ghost struct Submission {
    pub client_factors: Seq<Seq<Scalar>>,
    pub product_factors: Seq<Seq<Scalar>>,
    pub scores: Seq<Seq<i64>>,
}

/// What was handed in, as a submission.
pub open spec fn submission_of(trained: Option<(Vec<Vec<Scalar>>, Vec<Vec<Scalar>>, Vec<Vec<i64>>)>) -> Option<
    Submission,
> {
    match trained {
        Some(t) => Some(
            Submission {
                client_factors: rows_of(t.0@),
                product_factors: rows_of(t.1@),
                scores: rows_of(t.2@),
            },
        ),
        None => None,
    }
}

/// The training matrix of a search over the given interactions, where they
/// make one.
pub open spec fn search_matrix(rows: Seq<Interaction>, excluded: Seq<Seq<char>>) -> Option<
    Seq<RowModel>,
> {
    if quantities_valid(rows, excluded, rows.len() as int) && assemble(
        rows,
        excluded,
        rows.len() as int,
    ).len() > 0 {
        Some(assemble(rows, excluded, rows.len() as int))
    } else {
        None
    }
}

/// The expected percentile rank of the model that a submission makes with
/// `num_factors` factors over the matrix; `None` where there is no matrix,
/// where the submission does not fit it, and where no interaction counts.
pub open spec fn candidate_outcome(
    num_factors: usize,
    matrix: Option<Seq<RowModel>>,
    submitted: Option<Submission>,
) -> Option<Epr> {
    if matrix.is_none() || submitted.is_none() {
        None
    } else {
        let m = matrix.unwrap();
        let s = submitted.unwrap();
        if fit_verdict(
            num_factors as int,
            m,
            s.client_factors,
            s.product_factors,
            s.scores,
        ).is_err() {
            None
        } else {
            let f = Fitted {
                matrix: m,
                clients: clients_of(m),
                products: observed_products(m, m.len() as int),
                scores: s.scores,
            };
            let pairs = pairs_upto(f, m.len() as int);
            if pairs == 0 {
                None
            } else {
                Some(
                    Epr {
                        rank_sum: rank_sum_upto(f, m.len() as int) as u128,
                        pairs: pairs as u64,
                        products: f.products.len() as u64,
                    },
                )
            }
        }
    }
}

/// The artifact is that of the candidate with the hyperparameters `h`,
/// trained on the matrix `m`, that handed in `s`: it holds `h`, `m`, the
/// index maps of `m` and the factor rows of `s`.
pub open spec fn is_search_artifact(d: JSONData, h: Hyperparameters, m: Seq<RowModel>, s: Submission) -> bool {
    &&& d.hyperparameters == h
    &&& d.matrix.wf()
    &&& d.matrix@ == m
    &&& rows_of(d.client_factors@) == s.client_factors
    &&& rows_of(d.product_factors@) == s.product_factors
    &&& pair_texts(d.client_index@) == index_pairs(clients_of(m))
    &&& pair_texts(d.product_index@) == index_pairs(observed_products(m, m.len() as int))
    &&& has_shape(s.client_factors, m.len() as int, h.num_factors as int)
    &&& has_shape(
        s.product_factors,
        observed_products(m, m.len() as int).len() as int,
        h.num_factors as int,
    )
}

/// The course of one search over a grid of candidates, all trained on the
/// matrix of the same interactions.
///
/// Candidates are handed out in grid order, each after a look at the
/// cancellation signal; once the signal has been seen raised no further
/// candidate is handed out. Each candidate hands in what its training gave;
/// the run makes the candidate's model of it, evaluates the model, and keeps
/// the artifact of the best model so far.
pub struct SearchRun {
    grid: Vec<Hyperparameters>,
    rows: Vec<Interaction>,
    excluded: Vec<String>,
    started: usize,
    cancelled: bool,
    done: Vec<bool>,
    outcomes: Vec<Option<Epr>>,
    submitted: Ghost<Seq<Option<Submission>>>,
    kept: Option<(usize, JSONData)>,
}

impl SearchRun {
    /// The candidates of the search.
    pub closed spec fn grid(&self) -> Seq<Hyperparameters> {
        self.grid@
    }

    /// The training matrix of the search, where the interactions make one.
    pub closed spec fn matrix(&self) -> Option<Seq<RowModel>> {
        search_matrix(self.rows@, texts(self.excluded@))
    }

    /// How many candidates have been handed out.
    pub closed spec fn started(&self) -> int {
        self.started as int
    }

    /// The cancellation signal has been seen raised.
    pub closed spec fn cancelled(&self) -> bool {
        self.cancelled
    }

    /// Which candidates are finished.
    pub closed spec fn done(&self) -> Seq<bool> {
        self.done@
    }

    /// What each candidate handed in, `None` for a candidate that handed in
    /// nothing or has not finished.
    pub closed spec fn submitted(&self) -> Seq<Option<Submission>> {
        self.submitted@
    }

    /// The evaluations recorded, `None` for a candidate that has none.
    pub closed spec fn outcomes(&self) -> Seq<Option<Epr>> {
        self.outcomes@
    }

    /// The artifact kept is that of the best candidate.
    pub closed spec fn keeps_the_best(&self) -> bool {
        match self.kept {
            Some((w, d)) => {
                &&& w < self.grid@.len()
                &&& is_best(self.outcomes@, w as int)
                &&& self.matrix().is_some()
                &&& self.submitted@[w as int].is_some()
                &&& is_search_artifact(
                    d,
                    self.grid@[w as int],
                    self.matrix().unwrap(),
                    self.submitted@[w as int].unwrap(),
                )
            },
            None => forall|j: int|
                0 <= j < self.outcomes@.len() ==> !scored(#[trigger] self.outcomes@[j]),
        }
    }

    /// The run is consistent: only candidates handed out are finished, only
    /// finished candidates have handed in, every evaluation is that of what
    /// its candidate handed in, and the artifact kept is the best
    /// candidate's.
    pub closed spec fn wf(&self) -> bool {
        &&& self.started <= self.grid@.len()
        &&& self.done@.len() == self.grid@.len()
        &&& self.outcomes@.len() == self.grid@.len()
        &&& self.submitted@.len() == self.grid@.len()
        &&& forall|i: int| 0 <= i < self.done@.len() && #[trigger] self.done@[i] ==> i < self.started
        &&& forall|i: int|
            0 <= i < self.done@.len() && !self.done@[i] ==> (#[trigger] self.submitted@[i]).is_none()
        &&& forall|i: int|
            0 <= i < self.outcomes@.len() ==> #[trigger] self.outcomes@[i] == candidate_outcome(
                self.grid@[i].num_factors,
                self.matrix(),
                self.submitted@[i],
            )
        &&& self.keeps_the_best()
    }

    /// What validity means, for those who use a run.
    pub proof fn lemma_wf(&self)
        requires
            self.wf(),
        ensures
            0 <= self.started() <= self.grid().len(),
            self.done().len() == self.grid().len(),
            self.outcomes().len() == self.grid().len(),
            self.submitted().len() == self.grid().len(),
            forall|i: int| 0 <= i < self.done().len() && #[trigger] self.done()[i] ==> i < self.started(),
            forall|i: int|
                0 <= i < self.done().len() && !self.done()[i] ==> (#[trigger] self.submitted()[i]).is_none(),
            forall|i: int|
                0 <= i < self.outcomes().len() ==> #[trigger] self.outcomes()[i] == candidate_outcome(
                    self.grid()[i].num_factors,
                    self.matrix(),
                    self.submitted()[i],
                ),
    {
    }

    /// A run over `grid`, on the interactions `rows` without those of the
    /// `excluded` clients, in which nothing has happened yet.
    pub fn new(grid: Vec<Hyperparameters>, rows: Vec<Interaction>, excluded: Vec<String>) -> (run:
        SearchRun)
        ensures
            run.wf(),
            run.grid() == grid@,
            run.matrix() == search_matrix(rows@, texts(excluded@)),
            run.started() == 0,
            !run.cancelled(),
            forall|i: int| 0 <= i < grid@.len() ==> !(#[trigger] run.done()[i]),
    {
        let mut done: Vec<bool> = Vec::new();
        let mut outcomes: Vec<Option<Epr>> = Vec::new();
        let mut i: usize = 0;
        while i < grid.len()
            invariant
                0 <= i <= grid@.len(),
                done@.len() == i,
                outcomes@.len() == i,
                forall|a: int| 0 <= a < i ==> !(#[trigger] done@[a]),
                forall|a: int| 0 <= a < i ==> (#[trigger] outcomes@[a]).is_none(),
            decreases grid@.len() - i,
        {
            done.push(false);
            outcomes.push(None);
            i += 1;
        }
        let ghost nothing: Seq<Option<Submission>> = Seq::new(grid@.len(), |i: int| None);
        SearchRun {
            grid,
            rows,
            excluded,
            started: 0,
            cancelled: false,
            done,
            outcomes,
            submitted: Ghost(nothing),
            kept: None,
        }
    }

    /// Looks at the cancellation signal and hands out the next candidate:
    /// its place in the grid and its hyperparameters. No candidate is handed
    /// out once the signal has been seen raised, now or earlier, nor when
    /// all have been.
    pub fn begin_candidate(&mut self, cancel_raised: bool) -> (next: Option<(usize, Hyperparameters)>)
        requires
            old(self).wf(),
        ensures
            final(self).wf(),
            final(self).cancelled() == (old(self).cancelled() || cancel_raised),
            final(self).grid() == old(self).grid(),
            final(self).matrix() == old(self).matrix(),
            final(self).done() == old(self).done(),
            final(self).submitted() == old(self).submitted(),
            final(self).outcomes() == old(self).outcomes(),
            next.is_none() == (final(self).cancelled() || old(self).started() == old(self).grid().len()),
            next.is_none() ==> final(self).started() == old(self).started(),
            next matches Some(c) ==> {
                &&& c.0 == old(self).started()
                &&& c.1 == old(self).grid()[c.0 as int]
                &&& final(self).started() == old(self).started() + 1
            },
    {
        if cancel_raised {
            self.cancelled = true;
        }
        if self.cancelled || self.started == self.grid.len() {
            None
        } else {
            let at: usize = self.started;
            self.started = at + 1;
            Some((at, self.grid[at]))
        }
    }

    /// Records that `candidate` has finished, with what its training handed
    /// in: the factor rows of the clients and of the products and the score
    /// of every product for every client; or with `None` where training
    /// failed. The run makes the candidate's model of the matrix and of what
    /// was handed in, records the model's expected percentile rank, keeps
    /// the model's artifact where the candidate is now the best, and reports
    /// how many candidates are finished. Nothing is recorded, and `None`
    /// returned, for a candidate that was not handed out or has finished
    /// before.
    pub fn complete(
        &mut self,
        candidate: usize,
        trained: Option<(Vec<Vec<Scalar>>, Vec<Vec<Scalar>>, Vec<Vec<i64>>)>,
    ) -> (progress: Option<usize>)
        requires
            old(self).wf(),
        ensures
            final(self).wf(),
            final(self).grid() == old(self).grid(),
            final(self).matrix() == old(self).matrix(),
            final(self).started() == old(self).started(),
            final(self).cancelled() == old(self).cancelled(),
            progress.is_some() == (candidate < old(self).started() && !old(self).done()[candidate as int]),
            progress.is_none() ==> final(self).done() == old(self).done() && final(self).outcomes()
                == old(self).outcomes() && final(self).submitted() == old(self).submitted(),
            progress matches Some(n) ==> {
                &&& final(self).done() == old(self).done().update(candidate as int, true)
                &&& final(self).submitted() == old(self).submitted().update(
                    candidate as int,
                    submission_of(trained),
                )
                &&& final(self).outcomes() == old(self).outcomes().update(
                    candidate as int,
                    candidate_outcome(
                        old(self).grid()[candidate as int].num_factors,
                        old(self).matrix(),
                        submission_of(trained),
                    ),
                )
                &&& n == count_done(final(self).done(), final(self).done().len() as int)
                &&& n <= final(self).started()
            },
    {
        if candidate >= self.started || self.done[candidate] {
            return None;
        }
        let ghost before = self.outcomes@;
        let ghost handed = submission_of(trained);
        let ghost matrix = self.matrix();
        let h: Hyperparameters = self.grid[candidate];
        assert(self.submitted@[candidate as int].is_none());
        assert(before[candidate as int] == candidate_outcome(
            h.num_factors,
            matrix,
            self.submitted@[candidate as int],
        ));
        assert(before[candidate as int].is_none());
        let mut outcome: Option<Epr> = None;
        let mut fitted: Option<ALS> = None;
        match trained {
            None => {},
            Some((client_factors, product_factors, scores)) => {
                match InteractionMatrix::from_rows(&self.rows, &self.excluded) {
                    Err(_) => {},
                    Ok(training_matrix) => {
                        let mut model = ALS::new(
                            h.num_factors,
                            h.regularization,
                            h.confidence_multiplier,
                            Scalar { bits: TOLERANCE_BITS },
                            SEARCH_MAX_ITERATIONS,
                            training_matrix,
                        );
                        match model.fit(client_factors, product_factors, scores) {
                            Err(_) => {},
                            Ok(()) => {
                                outcome = model.compute_epr();
                                proof {
                                    model.lemma_fitted();
                                    model.lemma_wf();
                                    let m = matrix.unwrap();
                                    assert(model.fitted() == (Fitted {
                                        matrix: m,
                                        clients: clients_of(m),
                                        products: observed_products(m, m.len() as int),
                                        scores: handed.unwrap().scores,
                                    }));
                                }
                                fitted = Some(model);
                            },
                        }
                    },
                }
            },
        }
        assert(outcome == candidate_outcome(h.num_factors, matrix, handed));
        self.done[candidate] = true;
        self.outcomes[candidate] = outcome;
        self.submitted = Ghost(self.submitted@.update(candidate as int, handed));
        let ghost after = self.outcomes@;
        let newly_best: bool = match &outcome {
            Some(e) => e.is_valid() && select_best(&self.outcomes) == Some(candidate),
            None => false,
        };
        proof {
            assert(after == before.update(candidate as int, outcome));
            lemma_outcome_recorded(before, candidate as int, outcome);
            if !newly_best {
                match old(self).kept {
                    Some((w, d)) => {
                        assert(is_best(before, w as int));
                        if scored(outcome) {
                            let b = choose|b: int| is_best(after, b);
                            lemma_best_unique(before, w as int, b);
                        }
                        assert(is_best(after, w as int));
                    },
                    None => {
                        if scored(outcome) {
                            let b = choose|b: int| is_best(after, b);
                            assert(scored(before[b]));
                        }
                    },
                }
            }
        }
        if newly_best {
            match fitted {
                Some(model) => {
                    let ghost m = matrix.unwrap();
                    proof {
                        model.lemma_wf();
                    }
                    let artifact = model.into_artifact();
                    self.kept = Some((candidate, artifact.unwrap()));
                },
                None => {},
            }
        }
        let mut n: usize = 0;
        let mut i: usize = 0;
        while i < self.done.len()
            invariant
                0 <= i <= self.done@.len(),
                n == count_done(self.done@, i as int),
                n <= i,
            decreases self.done@.len() - i,
        {
            if self.done[i] {
                n += 1;
            }
            i += 1;
        }
        proof {
            lemma_done_within_started(self.done@, self.started as int, self.done@.len() as int);
        }
        Some(n)
    }

    /// The evaluation recorded for the candidate at place `i`.
    pub fn outcome(&self, i: usize) -> (epr: Option<Epr>)
        requires
            self.wf(),
        ensures
            epr == if i < self.outcomes().len() {
                self.outcomes()[i as int]
            } else {
                None
            },
    {
        if i < self.outcomes.len() {
            self.outcomes[i]
        } else {
            None
        }
    }

    /// The place in the grid of the best candidate so far: the one with the
    /// lowest expected percentile rank, the first of them where several
    /// share it; `None` while no candidate has given an evaluation.
    pub fn winner(&self) -> (best: Option<usize>)
        requires
            self.wf(),
        ensures
            best.is_none() == (forall|j: int|
                0 <= j < self.outcomes().len() ==> !scored(#[trigger] self.outcomes()[j])),
            best matches Some(i) ==> i < self.grid().len() && is_best(self.outcomes(), i as int),
    {
        let best = select_best(&self.outcomes);
        assert(self.outcomes() == self.outcomes@);
        best
    }

    /// The hyperparameters of the best candidate so far.
    pub fn best(&self) -> (best: Option<Hyperparameters>)
        requires
            self.wf(),
        ensures
            best.is_none() == (forall|j: int|
                0 <= j < self.outcomes().len() ==> !scored(#[trigger] self.outcomes()[j])),
            best matches Some(h) ==> exists|i: int|
                #[trigger] is_best(self.outcomes(), i) && h == self.grid()[i],
    {
        assert(self.outcomes() == self.outcomes@);
        find_best_als_model(&self.grid, &self.outcomes)
    }

    /// Ends the run and gives the best candidate with its artifact: the
    /// hyperparameters of the candidate with the lowest expected percentile
    /// rank, the first of them where several share it, and the artifact of
    /// the model made of what that candidate handed in. `None`, for no
    /// model, where no candidate has an evaluation.
    pub fn into_winner(self) -> (won: Option<(Hyperparameters, JSONData)>)
        requires
            self.wf(),
        ensures
            won.is_none() == (forall|j: int|
                0 <= j < self.outcomes().len() ==> !scored(#[trigger] self.outcomes()[j])),
            won matches Some(w) ==> exists|i: int|
                {
                    &&& #[trigger] is_best(self.outcomes(), i)
                    &&& w.0 == self.grid()[i]
                    &&& self.matrix().is_some()
                    &&& self.submitted()[i].is_some()
                    &&& is_search_artifact(
                        w.1,
                        w.0,
                        self.matrix().unwrap(),
                        self.submitted()[i].unwrap(),
                    )
                },
    {
        let SearchRun { grid, rows: _, excluded: _, started: _, cancelled: _, done: _, outcomes: _, submitted: _, kept } =
            self;
        match kept {
            None => None,
            Some((place, artifact)) => {
                assert(is_best(self.outcomes(), place as int));
                Some((grid[place], artifact))
            },
        }
    }
}

/// Recording an evaluation for a candidate that had none keeps the best
/// candidate where the new evaluation does not count, and makes no other
/// candidate best than the old best or the new one.
pub proof fn lemma_outcome_recorded(before: Seq<Option<Epr>>, c: int, outcome: Option<Epr>)
    requires
        0 <= c < before.len(),
        before[c].is_none(),
    ensures
        forall|b: int|
            b != c && #[trigger] is_best(before.update(c, outcome), b) ==> is_best(before, b),
        !scored(outcome) ==> forall|b: int| #[trigger]
            is_best(before, b) ==> is_best(before.update(c, outcome), b),
        !scored(outcome) ==> ((forall|j: int| 0 <= j < before.len() ==> !scored(#[trigger] before[j]))
            ==> (forall|j: int|
            0 <= j < before.len() ==> !scored(#[trigger] before.update(c, outcome)[j]))),
{
    let after = before.update(c, outcome);
    assert forall|b: int| b != c && #[trigger] is_best(after, b) implies is_best(before, b) by {
        assert forall|j: int| 0 <= j < before.len() && scored(#[trigger] before[j]) implies {
            &&& !before[j].unwrap().lower(before[b].unwrap())
            &&& (j < b ==> before[b].unwrap().lower(before[j].unwrap()))
        } by {
            assert(j != c);
            assert(after[j] == before[j]);
            assert(scored(after[j]));
        }
    }
    if !scored(outcome) {
        assert forall|b: int| #[trigger] is_best(before, b) implies is_best(after, b) by {
            assert(b != c);
            assert forall|j: int| 0 <= j < after.len() && scored(#[trigger] after[j]) implies {
                &&& !after[j].unwrap().lower(after[b].unwrap())
                &&& (j < b ==> after[b].unwrap().lower(after[j].unwrap()))
            } by {
                assert(j != c);
                assert(after[j] == before[j]);
                assert(scored(before[j]));
            }
        }
    }
}

/// Finds the best model of a search: given the candidates and, for each, the
/// expected percentile rank of the model trained with it, or `None` where
/// training gave none, returns the hyperparameters of the candidate with the
/// lowest rank, the first of them where several share it. `None`, for no
/// model, where no candidate has an evaluation.
pub fn find_best_als_model(grid: &Vec<Hyperparameters>, outcomes: &Vec<Option<Epr>>) -> (best:
    Option<Hyperparameters>)
    requires
        grid@.len() == outcomes@.len(),
    ensures
        best.is_none() == (forall|j: int|
            0 <= j < outcomes@.len() ==> !scored(#[trigger] outcomes@[j])),
        best matches Some(h) ==> exists|i: int| #[trigger] is_best(outcomes@, i) && h == grid@[i],
{
    match select_best(outcomes) {
        None => None,
        Some(i) => {
            assert(is_best(outcomes@, i as int));
            Some(grid[i])
        },
    }
}

/// Lets one training run be in flight at a time.
pub struct TrainingTurn {
    running: bool,
}

impl TrainingTurn {
    /// A training run is in flight.
    pub closed spec fn busy(&self) -> bool {
        self.running
    }

    /// No run is in flight.
    pub fn new() -> (turn: TrainingTurn)
        ensures
            !turn.busy(),
    {
        TrainingTurn { running: false }
    }

    /// Asks to start a training run. The run may start exactly where none
    /// is in flight, and is in flight from then on.
    pub fn try_begin(&mut self) -> (may_start: bool)
        ensures
            may_start == !old(self).busy(),
            final(self).busy(),
    {
        let free = !self.running;
        self.running = true;
        free
    }

    /// Records that the run in flight has ended.
    pub fn finish(&mut self)
        ensures
            !final(self).busy(),
    {
        self.running = false;
    }
}

/// The best candidate is the only one: two places that are both best are one.
pub proof fn lemma_best_unique(outcomes: Seq<Option<Epr>>, i: int, j: int)
    requires
        is_best(outcomes, i),
        is_best(outcomes, j),
    ensures
        i == j,
{
}

/// The pairs that give every identifier its own position in `ids`.
pub open spec fn index_pairs(ids: Seq<Seq<char>>) -> Seq<(Seq<char>, int)> {
    Seq::new(ids.len(), |i: int| (ids[i], i))
}

/// The artifact holds what the trained model holds.
pub open spec fn is_artifact_of(d: JSONData, m: ALS) -> bool {
    &&& d.hyperparameters == (Hyperparameters {
        num_factors: m.spec_num_factors(),
        regularization: m.spec_regularization(),
        confidence_multiplier: m.spec_confidence_multiplier(),
    })
    &&& d.matrix.wf()
    &&& d.matrix@ == m.matrix_rows()
    &&& rows_of(d.client_factors@) == m.client_factor_rows()
    &&& rows_of(d.product_factors@) == m.product_factor_rows()
    &&& pair_texts(d.client_index@) == index_pairs(m.clients())
    &&& pair_texts(d.product_index@) == index_pairs(m.products())
}

/// The model is the one that the artifact describes, with the given scores.
pub open spec fn is_model_of(m: ALS, d: JSONData, scores: Seq<Seq<i64>>) -> bool {
    &&& m.wf()
    &&& m.trained()
    &&& m.indexed()
    &&& m.spec_num_factors() == d.hyperparameters.num_factors
    &&& m.spec_regularization() == d.hyperparameters.regularization
    &&& m.spec_confidence_multiplier() == d.hyperparameters.confidence_multiplier
    &&& m.matrix_rows() == d.matrix@
    &&& m.client_factor_rows() == rows_of(d.client_factors@)
    &&& m.product_factor_rows() == rows_of(d.product_factors@)
    &&& m.score_rows() == scores
    &&& m.clients().len() == d.client_index@.len()
    &&& m.products().len() == d.product_index@.len()
    &&& forall|i: int|
        0 <= i < d.client_index@.len() ==> m.clients()[(#[trigger] d.client_index@[i]).1 as int]
            == d.client_index@[i].0@
    &&& forall|i: int|
        0 <= i < d.product_index@.len() ==> m.products()[(#[trigger] d.product_index@[i]).1 as int]
            == d.product_index@[i].0@
}

/// What loading answers to an artifact and its scores: the first fault of
/// the data, or success.
pub open spec fn artifact_verdict(d: JSONData, scores: Seq<Seq<i64>>) -> Result<(), ModelError> {
    data_verdict(
        d.hyperparameters.num_factors as int,
        rows_of(d.client_factors@),
        rows_of(d.product_factors@),
        pair_texts(d.client_index@),
        pair_texts(d.product_index@),
        scores,
    )
}

/// Builds the trained model that an artifact describes. `scores` holds, for
/// every client, the score of every product. The artifact is refused where
/// an index does not number its identifiers one-to-one from zero or a shape
/// disagrees with the index maps or with the number of factors.
pub fn load_model(data: JSONData, scores: Vec<Vec<i64>>, max_iterations: usize) -> (loaded: Result<
    ALS,
    ModelError,
>)
    requires
        data.matrix.wf(),
    ensures
        loaded.is_ok() == artifact_verdict(data, rows_of(scores@)).is_ok(),
        loaded matches Err(e) ==> artifact_verdict(data, rows_of(scores@)) == Err::<(), ModelError>(e),
        loaded matches Ok(m) ==> is_model_of(m, data, rows_of(scores@)) && m.spec_tolerance().bits
            == TOLERANCE_BITS && m.spec_max_iterations() == max_iterations,
{
    let JSONData {
        hyperparameters,
        matrix,
        product_factors,
        client_factors,
        client_index,
        product_index,
    } = data;
    let mut model = ALS::new(
        hyperparameters.num_factors,
        hyperparameters.regularization,
        hyperparameters.confidence_multiplier,
        Scalar { bits: TOLERANCE_BITS },
        max_iterations,
        matrix,
    );
    match model.build_from_data(
        client_factors,
        product_factors,
        &client_index,
        &product_index,
        scores,
    ) {
        Ok(()) => Ok(model),
        Err(e) => Err(e),
    }
}

/// The artifact of a valid trained model is accepted when it is loaded with
/// the model's scores.
pub proof fn lemma_artifact_loads(m: ALS, d: JSONData)
    requires
        m.wf(),
        m.trained(),
        is_artifact_of(d, m),
    ensures
        artifact_verdict(d, m.score_rows()) == Ok::<(), ModelError>(()),
{
    m.lemma_wf();
    let clients = index_pairs(m.clients());
    let products = index_pairs(m.products());
    assert(numbers_densely(clients));
    assert(numbers_densely(products));
}

/// Writing a model to an artifact and loading the artifact gives back the
/// same hyperparameters, index maps, factor rows and training matrix.
pub proof fn lemma_artifact_round_trip(m: ALS, d: JSONData, scores: Seq<Seq<i64>>, m2: ALS)
    requires
        m.wf(),
        m.trained(),
        is_artifact_of(d, m),
        is_model_of(m2, d, scores),
    ensures
        m2.spec_num_factors() == m.spec_num_factors(),
        m2.spec_regularization() == m.spec_regularization(),
        m2.spec_confidence_multiplier() == m.spec_confidence_multiplier(),
        m2.matrix_rows() == m.matrix_rows(),
        m2.clients() == m.clients(),
        m2.products() == m.products(),
        m2.client_factor_rows() == m.client_factor_rows(),
        m2.product_factor_rows() == m.product_factor_rows(),
{
    m.lemma_wf();
    let cp = pair_texts(d.client_index@);
    let pp = pair_texts(d.product_index@);
    assert(cp.len() == d.client_index@.len());
    assert(pp.len() == d.product_index@.len());
    assert(index_pairs(m.clients()).len() == m.clients().len());
    assert(index_pairs(m.products()).len() == m.products().len());
    assert forall|i: int| 0 <= i < m.clients().len() implies m2.clients()[i] == m.clients()[i] by {
        assert(cp[i] == index_pairs(m.clients())[i]);
        assert(cp[i] == (d.client_index@[i].0@, d.client_index@[i].1 as int));
        assert(d.client_index@[i].1 as int == i);
    }
    assert forall|i: int| 0 <= i < m.products().len() implies m2.products()[i] == m.products()[i] by {
        assert(pp[i] == index_pairs(m.products())[i]);
        assert(pp[i] == (d.product_index@[i].0@, d.product_index@[i].1 as int));
        assert(d.product_index@[i].1 as int == i);
    }
    assert(m2.clients() =~= m.clients());
    assert(m2.products() =~= m.products());
}

} // verus!
