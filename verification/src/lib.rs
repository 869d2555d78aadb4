pub mod applicator;
pub mod auth;
pub mod bench;
pub mod config;
pub mod dict;
pub mod json;
pub mod output;
pub mod request;
pub mod response;
pub mod results;
pub mod strutil;

pub use applicator::Applicator;
pub use config::Config;
pub use output::OutputFormat;
pub use request::{Request, RequestError};
pub use response::{Response, ResponseError};
pub use results::{Results, ResultsError, State};
pub use test::{Test, TestError};
