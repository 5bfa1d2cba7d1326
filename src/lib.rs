//! A syntax-aware test-case reducer.
//!
//! Given a program text, its parse tree and an interestingness check, the
//! reducer searches for edits (deletions and canonical replacements of
//! syntax nodes) that keep the program interesting while making it smaller.
//! The library holds the reduction engine and its data structures; parsing,
//! running the check and threading are left to the caller.
pub mod check;
pub mod driver;
pub mod edits;
pub mod heap;
pub mod id;
pub mod idle;
pub mod node_types;
pub mod plan;
pub mod reduce;
pub mod render;
pub mod task;
pub mod tree;
pub mod versioned;

pub use check::{Check, Matcher, StreamMode, Verdict};
pub use driver::{OnParseError, ParseErrorAction, Pass, StatCollector, Stats};
pub use edits::{Alter, Edits, EditsView};
pub use heap::TaskHeap;
pub use id::NodeId;
pub use idle::Idle;
pub use node_types::{FieldSchema, NodeSchema, NodeTypes, Subtype};
pub use plan::Replacements;
pub use reduce::{Attempt, Config, Reducer, Resolution};
pub use task::{PrioritizedTask, Reduction, Task, TaskId};
pub use tree::{NodeView, Original, OriginalError, SyntaxNode, SyntaxTree, TreeError};
pub use versioned::Versioned;
