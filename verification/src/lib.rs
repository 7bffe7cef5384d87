//! First-in-first-out lot accounting for a chronological transaction log:
//! tracks acquisition lots per asset, deducts from the oldest lots first
//! when an asset is spent, and emits realized-profit records for sales
//! settled in the fiat reference currency.

pub mod engine;
pub mod laws;
pub mod ledger;
