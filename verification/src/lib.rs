//! A collaborative-filtering recommender for a retail catalog: the training
//! matrix and its index maps, ranking and evaluation of a fitted model, the
//! hyperparameter search, the model artifact, the live model slot of the
//! server, and paginated catalog listings.

pub mod text;
pub mod scalar;
pub mod index;
pub mod matrix;
pub mod ranking;
pub mod evaluation;
pub mod als;
pub mod training;
pub mod config;
pub mod db;
pub mod path;
pub mod modelserver;
