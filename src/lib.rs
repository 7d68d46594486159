//! A lazily materialised node tree with child-group reconciliation.
//!
//! Nodes live in a [`dom::Dom`] arena and are named by copyable handles.
//! Each node starts as a virtual description and is materialised on the live
//! surface only when an operation needs it: an operation whose operands are
//! all virtual stays virtual, otherwise every operand is materialised first.
//! [`child_groups::ChildGroups`] keeps the logical child slots of a parent
//! and inserts each child before the anchor of the next occupied slot.
//!
//! - [`lazy`]: the one-way thunk/value cell behind every node.
//! - [`dom`]: the arena, its model and invariants, and the deferred text
//!   writes of live nodes.
//! - [`node`]: the node handles' operations and the representation rule.
//! - [`child_groups`]: slot bookkeeping for a parent's dynamic children.
//! - [`markup`]: serialisation and hydration.
//! - [`laws`]: properties that relate several operations.
//! - [`calendar`], [`ui5`]: builders for calendar elements.
//! - [`classes`]: choosing CSS class constants by prefix.
//! - [`value`]: marker traits for plain values and the signal wrapper.
pub mod lazy;
pub mod seq_util;
pub mod dom;
pub mod node;
pub mod child_groups;
pub mod markup;
pub mod laws;
pub mod calendar;
pub mod ui5;
pub mod classes;
pub mod value;
