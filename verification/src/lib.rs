pub mod numeric;
pub mod models;
pub mod stable_sort;
pub mod calculator;
pub mod blended_optimizer;
pub mod text;
pub mod ledger;
pub mod price_index;
pub mod calendar;
pub mod revenue;
pub mod anomalies;
pub mod metrics;
pub mod settlement_mapper;
