//! Matching-engine core of a centralized exchange: a balance ledger, per-market
//! order books with price-time priority, a market registry and the engine that
//! runs commands against them.
#![allow(non_snake_case)]
#![allow(non_camel_case_types)]

pub mod engine;
pub mod error;
pub mod laws;
pub mod ledger;
pub mod market;
pub mod messages;
pub mod orderbook;
pub mod reserve;
mod outside;
