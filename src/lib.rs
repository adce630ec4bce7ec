pub mod bwd;
pub mod bwd1;
pub mod common;

pub use bwd::{Bwd, BwdIter};
pub use bwd1::{Bwd1, Bwd1Iter};
