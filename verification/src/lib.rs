//! The discrete core of a linear-regression trainer that learns by stochastic
//! gradient descent: the grammar of the dataset text, the rules on the shape
//! of a dataset, and the order in which a training run walks its rows.
//!
//! Every number is handed back as the text that spells it; turning that text
//! into a machine number, and all arithmetic on such numbers, is left to the
//! caller.

pub mod dataset;
pub mod error;
pub mod number;
pub mod plan;
pub mod shape;
pub mod text;

pub use dataset::{load_csv, parse_row, Row};
pub use error::DataError;
pub use number::is_numeric;
pub use plan::{Step, TrainingPlan};
pub use shape::{check_dataset, check_dimension};
