pub mod context;
pub mod generics;
pub mod strings;
pub mod visitor;

pub use context::{Context, ContextTree};
pub use generics::GenericContext;
pub use visitor::{
    ClassDeclaration, FunctionCall, FunctionDeclaration, TypeDeclaration, Visited, Visitor,
    VisitorType,
};
