//! Aggregation of VLESS + XHTTP share links into a ranked subscription.
pub mod cidr;
pub mod civil;
pub mod output;
pub mod params;
pub mod percent;
pub mod pipeline;
pub mod roundtrip;
pub mod singbox;
pub mod sources;
pub mod text;
pub mod vless;
