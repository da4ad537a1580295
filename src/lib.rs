pub mod bounds;
pub mod check;
pub mod generalize;
pub mod infer;
pub mod scope;
pub mod syntax;
pub mod types;
pub mod unify;

pub use check::{check, infer_program};
pub use types::{MachineType, Type, TypeError};
