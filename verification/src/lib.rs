//! Graph logic behind the `oop_class!` macro: C3 method resolution order, method
//! resolution, the queries over the inheritance graph that code generation relies
//! on, and the names of the generated items.

pub mod c3;
pub mod generics;
pub mod graph;
pub mod methods;
pub mod names;
pub mod signature;
pub mod subobjects;
pub mod text;
pub mod types;
pub mod validate;
