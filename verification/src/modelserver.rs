//! The model server: the slot that holds the live model, what the server
//! does at startup and when the artifact file changes, and what it answers
//! from the live model.

use vstd::prelude::*;
use vstd::string::*;
use crate::als::{has_shape, rows_of, ALS};
use crate::evaluation::Epr;
use crate::db::{ClientRow, ProductRow};
use crate::index::texts;
use crate::path::{decode_path_param, percent_decoded};
use crate::scalar::Scalar;
use crate::training::{artifact_verdict, is_model_of, load_model, JSONData, TOLERANCE_BITS};

verus! {

/// A client with the products recommended to it.
pub struct Recommendation {
    pub client: ClientRow,
    pub products: Vec<ProductRow>,
}

/// The hyperparameters and the evaluation of the live model.
#[derive(Clone, Copy, Debug, PartialEq, Eq, Structural)]
pub struct MetadataModel {
    pub num_factors: usize,
    pub regularization: Scalar,
    pub confidence_multiplier: Scalar,
    pub epr: Epr,
}

/// What happened to a file in the watched directory.
#[derive(Clone, Copy, Debug, PartialEq, Eq, Structural)]
pub enum WatchKind {
    Create,
    Modify,
    Other,
}

/// What the server does about a change in the watched directory.
#[derive(Clone, Copy, Debug, PartialEq, Eq, Structural)]
pub enum WatchAction {
    /// Nothing.
    Ignore,
    /// Wait for the writer to finish, then load the artifact.
    Reload { debounce_millis: u64 },
}

/// What the server does once it has tried to load the artifact at startup.
#[derive(Clone, Copy, Debug, PartialEq, Eq, Structural)]
pub enum StartupAction {
    /// The artifact was loaded: serve it.
    Serve,
    /// There is no usable artifact: train a first model in the background.
    TrainInitial,
}

/// How long the server waits after a change before it loads the artifact.
pub const DEBOUNCE_MILLIS: u64 = 500;

/// Largest number of training rounds recorded in a model loaded at startup.
pub const STARTUP_MAX_ITERATIONS: usize = 100;

/// Largest number of training rounds recorded in a model loaded on a change.
pub const RELOAD_MAX_ITERATIONS: usize = 200;

/// Decides what to do about a change in the watched directory: the artifact
/// is loaded again, after the debounce time, where a file was created or
/// modified and one of the paths of the change names the artifact file.
pub fn watch_decision(kind: WatchKind, names_artifact: bool) -> (action: WatchAction)
    ensures
        action == if names_artifact && (kind == WatchKind::Create || kind == WatchKind::Modify) {
            WatchAction::Reload { debounce_millis: DEBOUNCE_MILLIS }
        } else {
            WatchAction::Ignore
        },
{
    if !names_artifact {
        return WatchAction::Ignore;
    }
    match kind {
        WatchKind::Create => WatchAction::Reload { debounce_millis: DEBOUNCE_MILLIS },
        WatchKind::Modify => WatchAction::Reload { debounce_millis: DEBOUNCE_MILLIS },
        WatchKind::Other => WatchAction::Ignore,
    }
}

/// The rows that were found, in their order.
pub open spec fn found_rows<T>(lookups: Seq<Option<T>>, upto: int) -> Seq<T>
    decreases upto,
{
    if upto <= 0 {
        Seq::empty()
    } else {
        let earlier = found_rows(lookups, upto - 1);
        match lookups[upto - 1] {
            Some(row) => earlier.push(row),
            None => earlier,
        }
    }
}

/// Puts a recommendation together from what the catalog returned for the
/// client and for each recommended product. Products that were not found
/// are dropped; without the client there is no recommendation.
pub fn assemble_recommendation(client: Option<ClientRow>, products: Vec<Option<ProductRow>>) -> (r:
    Option<Recommendation>)
    ensures
        r.is_some() == client.is_some(),
        r matches Some(rec) ==> rec.client == client.unwrap() && rec.products@ == found_rows(
            products@,
            products@.len() as int,
        ),
{
    let client = match client {
        Some(c) => c,
        None => {
            return None;
        },
    };
    let ghost lookups = products@;
    let mut products = products;
    let mut found: Vec<ProductRow> = Vec::new();
    // The lookups are taken from the end, so the rows come out reversed.
    let mut reversed: Vec<ProductRow> = Vec::new();
    while products.len() > 0
        invariant
            products@.len() <= lookups.len(),
            products@ == lookups.take(products@.len() as int),
            reversed@.reverse() == suffix_rows(
                lookups,
                products@.len() as int,
            ),
        decreases products@.len(),
    {
        let ghost n = products@.len() as int;
        let last = products.pop();
        assert(products@ =~= lookups.take(n - 1));
        assert(last == Some(lookups[n - 1]));
        let ghost before = reversed@;
        match last {
            Some(Some(row)) => {
                reversed.push(row);
                assert(reversed@.reverse() =~= seq![row] + before.reverse());
                assert(suffix_rows(lookups, n - 1) =~= seq![row] + suffix_rows(lookups, n));
            },
            _ => {
                assert(suffix_rows(lookups, n - 1) =~= suffix_rows(lookups, n));
            },
        }
    }
    let ghost turned = reversed@;
    while reversed.len() > 0
        invariant
            reversed@.len() <= turned.len(),
            reversed@ == turned.take(reversed@.len() as int),
            found@ == turned.skip(reversed@.len() as int).reverse(),
        decreases reversed@.len(),
    {
        let ghost n = reversed@.len() as int;
        let row = reversed.pop().unwrap();
        found.push(row);
        assert(reversed@ =~= turned.take(n - 1));
        assert(found@ =~= turned.skip(n - 1).reverse());
    }
    proof {
        assert(turned.skip(0) =~= turned);
        lemma_suffix_rows_all(lookups, 0);
    }
    Some(Recommendation { client, products: found })
}

/// The rows that were found from place `from` on, in their order.
pub open spec fn suffix_rows<T>(lookups: Seq<Option<T>>, from: int) -> Seq<T>
    decreases lookups.len() - from,
{
    if from >= lookups.len() || from < 0 {
        Seq::empty()
    } else {
        match lookups[from] {
            Some(row) => seq![row] + suffix_rows(lookups, from + 1),
            None => suffix_rows(lookups, from + 1),
        }
    }
}

proof fn lemma_suffix_rows_all<T>(lookups: Seq<Option<T>>, from: int)
    requires
        0 <= from <= lookups.len(),
    ensures
        found_rows(lookups, from) + suffix_rows(lookups, from) == found_rows(
            lookups,
            lookups.len() as int,
        ),
    decreases lookups.len() - from,
{
    if from == lookups.len() {
        assert(found_rows(lookups, from) + suffix_rows(lookups, from) =~= found_rows(lookups, from));
    } else {
        lemma_suffix_rows_all(lookups, from + 1);
        match lookups[from] {
            Some(row) => {
                assert(found_rows(lookups, from + 1) + suffix_rows(lookups, from + 1) =~= found_rows(
                    lookups,
                    from,
                ) + suffix_rows(lookups, from));
            },
            None => {},
        }
    }
}

/// The server's model slot and the path of the artifact that fills it.
///
/// The slot is empty or holds one trained model. It is filled and replaced
/// as a whole, never changed in place.
pub struct ModelServer {
    model: Option<ALS>,
    hyperparameters_file: String,
}

impl ModelServer {
    /// The live model, if there is one.
    pub closed spec fn slot(&self) -> Option<ALS> {
        self.model
    }

    /// The path of the artifact file.
    pub closed spec fn artifact_path(&self) -> Seq<char> {
        self.hyperparameters_file@
    }

    /// The live model, where there is one, is valid and trained.
    pub closed spec fn wf(&self) -> bool {
        self.model matches Some(m) ==> m.wf() && m.trained()
    }

    /// The factor and score shapes of the live model agree with its index
    /// maps and its number of factors, whatever has happened to the slot.
    pub proof fn lemma_live_model_consistent(&self)
        requires
            self.wf(),
        ensures
            self.slot() matches Some(m) ==> {
                &&& m.wf()
                &&& m.trained()
                &&& m.indexed()
                &&& has_shape(
                    m.client_factor_rows(),
                    m.clients().len() as int,
                    m.spec_num_factors() as int,
                )
                &&& has_shape(
                    m.product_factor_rows(),
                    m.products().len() as int,
                    m.spec_num_factors() as int,
                )
                &&& has_shape(m.score_rows(), m.clients().len() as int, m.products().len() as int)
            },
    {
        if self.model.is_some() {
            self.model.unwrap().lemma_wf();
        }
    }

    /// A server with an empty slot for the artifact at `hyperparameters_file`.
    pub fn new(hyperparameters_file: &str) -> (server: ModelServer)
        ensures
            server.wf(),
            server.slot().is_none(),
            server.artifact_path() == hyperparameters_file@,
    {
        ModelServer { model: None, hyperparameters_file: String::from_str(hyperparameters_file) }
    }

    /// The path of the artifact file.
    pub fn hyperparameters_file(&self) -> (path: &String)
        ensures
            path@ == self.artifact_path(),
    {
        &self.hyperparameters_file
    }

    /// Tells whether the slot holds a model.
    pub fn has_model(&self) -> (live: bool)
        ensures
            live == self.slot().is_some(),
    {
        self.model.is_some()
    }

    fn install(
        &mut self,
        loaded: Option<(JSONData, Vec<Vec<i64>>)>,
        max_iterations: usize,
    ) -> (swapped: bool)
        requires
            old(self).wf(),
            loaded matches Some(l) ==> l.0.matrix.wf(),
        ensures
            final(self).wf(),
            final(self).artifact_path() == old(self).artifact_path(),
            swapped == (loaded matches Some(l) && artifact_verdict(l.0, rows_of(l.1@)).is_ok()),
            !swapped ==> final(self).slot() == old(self).slot(),
            swapped ==> final(self).slot().is_some() && is_model_of(
                final(self).slot().unwrap(),
                loaded.unwrap().0,
                rows_of(loaded.unwrap().1@),
            ) && final(self).slot().unwrap().spec_max_iterations() == max_iterations
                && final(self).slot().unwrap().spec_tolerance().bits == TOLERANCE_BITS,
    {
        match loaded {
            None => false,
            Some((data, scores)) => {
                match load_model(data, scores, max_iterations) {
                    Ok(model) => {
                        self.model = Some(model);
                        true
                    },
                    Err(_) => false,
                }
            },
        }
    }

    /// Fills the slot at startup from what was read of the artifact file:
    /// the artifact and, for every client, the score of every product; or
    /// `None` where the file was missing or could not be read. With a valid
    /// artifact the model is served. Otherwise the slot is left as it was and
    /// a first model is to be trained.
    pub fn initialize(&mut self, loaded: Option<(JSONData, Vec<Vec<i64>>)>) -> (action:
        StartupAction)
        requires
            old(self).wf(),
            loaded matches Some(l) ==> l.0.matrix.wf(),
        ensures
            final(self).wf(),
            final(self).artifact_path() == old(self).artifact_path(),
            (action == StartupAction::Serve) == (loaded matches Some(l) && artifact_verdict(
                l.0,
                rows_of(l.1@),
            ).is_ok()),
            action == StartupAction::TrainInitial ==> final(self).slot() == old(self).slot(),
            action == StartupAction::Serve ==> final(self).slot().is_some() && is_model_of(
                final(self).slot().unwrap(),
                loaded.unwrap().0,
                rows_of(loaded.unwrap().1@),
            ) && final(self).slot().unwrap().spec_max_iterations() == STARTUP_MAX_ITERATIONS
                && final(self).slot().unwrap().spec_tolerance().bits == TOLERANCE_BITS,
    {
        if self.install(loaded, STARTUP_MAX_ITERATIONS) {
            StartupAction::Serve
        } else {
            StartupAction::TrainInitial
        }
    }

    /// Replaces the live model after a change of the artifact file. With a
    /// valid artifact the slot holds the new model, whole; with a missing,
    /// unreadable or invalid one the slot keeps the model it had. Tells
    /// whether the model was replaced.
    pub fn reload(&mut self, loaded: Option<(JSONData, Vec<Vec<i64>>)>) -> (swapped: bool)
        requires
            old(self).wf(),
            loaded matches Some(l) ==> l.0.matrix.wf(),
        ensures
            final(self).wf(),
            final(self).artifact_path() == old(self).artifact_path(),
            swapped == (loaded matches Some(l) && artifact_verdict(l.0, rows_of(l.1@)).is_ok()),
            !swapped ==> final(self).slot() == old(self).slot(),
            swapped ==> final(self).slot().is_some() && is_model_of(
                final(self).slot().unwrap(),
                loaded.unwrap().0,
                rows_of(loaded.unwrap().1@),
            ) && final(self).slot().unwrap().spec_max_iterations() == RELOAD_MAX_ITERATIONS
                && final(self).slot().unwrap().spec_tolerance().bits == TOLERANCE_BITS,
    {
        self.install(loaded, RELOAD_MAX_ITERATIONS)
    }

    /// The live model, if there is one.
    pub fn live_model(&self) -> (model: Option<&ALS>)
        requires
            self.wf(),
        ensures
            model.is_some() == self.slot().is_some(),
            model matches Some(m) ==> *m == self.slot().unwrap() && m.wf() && m.trained(),
    {
        self.model.as_ref()
    }

    /// Tells whether the live model knows the client.
    pub fn client_known(&self, user_id: &str) -> (known: bool)
        requires
            self.wf(),
        ensures
            known == (self.slot() matches Some(m) && m.clients().contains(user_id@)),
    {
        match &self.model {
            None => false,
            Some(m) => {
                proof {
                    m.lemma_wf();
                }
                match m.client_index() {
                    Some(clients) => clients.get(user_id).is_some(),
                    None => false,
                }
            },
        }
    }

    /// The products recommended to a client by the live model, best first:
    /// `n` of them, one where `n` is not given. `None` while the slot is
    /// empty; an empty list for a client that the model does not know.
    pub fn predict(&self, user_id: &str, n: Option<usize>) -> (ids: Option<Vec<String>>)
        requires
            self.wf(),
        ensures
            ids.is_some() == self.slot().is_some(),
            ids matches Some(list) ==> self.slot().unwrap().is_recommendation(
                user_id@,
                match n {
                    Some(limit) => limit as int,
                    None => 1,
                },
                texts(list@),
            ),
    {
        match &self.model {
            None => None,
            Some(m) => Some(m.recommend(user_id, n)),
        }
    }

    /// Answers a request for recommendations: the client identifier is
    /// percent-decoded, the limit is one where the request names none, and
    /// the live model is asked. `None`, for not found, while the slot is
    /// empty and for a limit below one.
    pub fn recommend_for_request(&self, raw_client_id: &str, limit: Option<i64>) -> (ids: Option<
        Vec<String>,
    >)
        requires
            self.wf(),
        ensures
            ids.is_some() == (self.slot().is_some() && (limit matches Some(l) ==> 1 <= l
                <= usize::MAX)),
            ids matches Some(list) ==> self.slot().unwrap().is_recommendation(
                percent_decoded(raw_client_id@),
                match limit {
                    Some(l) => l as int,
                    None => 1,
                },
                texts(list@),
            ),
    {
        let n: Option<usize> = match limit {
            None => None,
            Some(l) => {
                match recommendation_limit(l) {
                    Some(v) => Some(v),
                    None => {
                        return None;
                    },
                }
            },
        };
        let id = decode_path_param(raw_client_id);
        self.predict(id.as_str(), n)
    }

    /// The hyperparameters of the live model and its expected percentile
    /// rank, zero where it has none; all zero while the slot is empty.
    pub fn get_metadata(&self) -> (meta: MetadataModel)
        requires
            self.wf(),
        ensures
            meta == spec_metadata(self.slot()),
            meta.epr.below_one(),
    {
        match &self.model {
            None => MetadataModel {
                num_factors: 0,
                regularization: Scalar::zero(),
                confidence_multiplier: Scalar::zero(),
                epr: Epr::zero(),
            },
            Some(m) => {
                let epr = match m.compute_epr() {
                    Some(e) => e,
                    None => Epr::zero(),
                };
                MetadataModel {
                    num_factors: m.num_factors(),
                    regularization: m.regularization(),
                    confidence_multiplier: m.confidence_multiplier(),
                    epr,
                }
            },
        }
    }
}

/// The metadata of a slot: the hyperparameters of its model and the model's
/// expected percentile rank, zero where it has none; all zero for an empty
/// slot.
pub open spec fn spec_metadata(slot: Option<ALS>) -> MetadataModel {
    match slot {
        None => MetadataModel {
            num_factors: 0,
            regularization: Scalar { bits: 0 },
            confidence_multiplier: Scalar { bits: 0 },
            epr: Epr { rank_sum: 0, pairs: 1, products: 1 },
        },
        Some(m) => MetadataModel {
            num_factors: m.spec_num_factors(),
            regularization: m.spec_regularization(),
            confidence_multiplier: m.spec_confidence_multiplier(),
            epr: match m.spec_epr() {
                Some(e) => e,
                None => Epr { rank_sum: 0, pairs: 1, products: 1 },
            },
        },
    }
}

/// The limit of a recommendation request: the number asked for, where it is
/// at least one.
pub fn recommendation_limit(limit: i64) -> (n: Option<usize>)
    ensures
        n.is_some() == (1 <= limit <= usize::MAX),
        n matches Some(v) ==> v == limit,
{
    if limit < 1 {
        None
    } else if limit as u64 > usize::MAX as u64 {
        None
    } else {
        Some(limit as usize)
    }
}

} // verus!
