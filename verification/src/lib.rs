//! A personal record keeper: tasks (with priority, optional due date,
//! optional repetition and dependencies on other tasks) and notes, held in
//! identity-sorted stores, combined into a single database aggregate that
//! round-trips through a verified binary encoding.

mod clock;
pub mod codec;
pub mod compare;
pub mod db;
pub mod errors;
mod ident;
pub mod note;
pub mod store;
pub mod task;
