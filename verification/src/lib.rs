use vstd::prelude::*;

pub mod app_metrics;
pub mod cards;
pub mod game;
pub mod layer;
pub mod models;
pub mod state;
pub mod text;

verus! {

} // verus!
