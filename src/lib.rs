//! Directory recommendation engine: history loading, filtering, ranking
//! decisions and the paging logic of the interactive picker.

pub mod clock;
pub mod frecency;
pub mod history;
pub mod picker;
pub mod rank;
pub mod text;
