//! What holds of the library as a whole: how its results relate to their inputs
//! and to one another.
pub mod bandwidth;
pub mod cards;
pub mod channels;
pub mod command_line;
pub mod demo;
pub mod detection;
pub mod frame;
pub mod listing;
pub mod model_fields;
pub mod model_file;
pub mod numbers;
pub mod rates;
pub mod requests;
pub mod session;
pub mod texts;
