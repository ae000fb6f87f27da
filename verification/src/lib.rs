use vstd::prelude::*;

pub mod edit;
pub mod message;
pub mod order;
pub mod ranking;
pub mod text;

verus! {
}
