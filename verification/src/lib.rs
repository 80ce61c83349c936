//! Verified core of an oracle trading bot for short up/down prediction markets.
pub mod text;
pub mod timeframe;
pub mod binary64;
pub mod map;
pub mod json;
pub mod model;
pub mod config;
pub mod gamma;
pub mod orderbook;
pub mod state;
pub mod chainlink;
pub mod clob_ws;
pub mod throttle;
pub mod cli;
