pub mod binary;
pub mod config;
pub mod diag;
pub mod lexer;
pub mod textutil;
pub mod model;
pub mod num;
pub mod parser;

pub use config::{Cfg, CfgModel};
pub use diag::{CfgError, Diag, Expected, Found};
pub use model::{CfgClass, CfgEntry, CfgProperty, CfgValue, EntryReturn};
