pub mod codec;
pub mod cve;
pub mod dates;
pub mod display;
pub mod db;
pub mod nvd;
pub mod options;
pub mod roundtrip;
pub mod search;
pub mod text;
pub mod update;
