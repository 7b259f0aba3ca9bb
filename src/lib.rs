//! Multi-resolution turnover estimator over a stream of output creation and
//! spend events.

pub mod decode;
pub mod tracker;
pub mod reduce;
pub mod stream;
pub mod lemmas;
