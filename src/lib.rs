//! Checked partial references: capabilities over independently addressable parts of a record,
//! and the algebra that narrows and splits them.

pub mod part;
pub mod layout;
pub mod order;
pub mod algebra;
pub mod handle;
pub mod example;
pub mod laws;

pub use algebra::Mismatch;
pub use example::{swap_a_and_b, swap_a_and_b_alt, swap_a_and_b_lt, Foo, PART_A, PART_B, PART_C, PART_D};
pub use handle::{
    Const, HasSubset, HasTarget, IntoPartialRef, IntoPartialRefMut, Memory, Mut, PartialRef,
    PluckConst, PluckMut, Ref,
};
pub use layout::{
    AbstractPart, Field, HasPart, PartDecl, PartType, PartialRefTarget, RecordType, Schema, Shape,
    SplitIntoParts,
};
pub use part::{Capability, ContainsNestedPart, Mode, Nested};
