use vstd::prelude::*;

verus! {

/// The kind of a pass over the syntax tree.
#[derive(Clone, Copy, Debug, PartialEq, Eq)]
pub enum VisitorType {
    FunctionDeclarationVisitor,
    GenericCallsVisitor,
    ContextBuildingVisitor,
    LibraryEmitterVisitor,
}

/// A function declaration as the passes see it: its name and its generic
/// parameters, if it has any.
pub struct FunctionDeclaration {
    pub name: String,
    pub generic_types: Option<Vec<String>>,
}

/// A class declaration: its name and its generic parameters, if any.
pub struct ClassDeclaration {
    pub name: String,
    pub generic_types: Option<Vec<String>>,
}

/// A call of a function, with the concrete types given for its generic
/// parameters.
pub struct FunctionCall {
    pub name: String,
    pub generic_types: Vec<String>,
}

/// A variable declaration whose type is given concrete generic arguments.
pub struct TypeDeclaration {
    pub name: String,
    pub generic_types: Vec<String>,
}

/// A pass over the syntax tree: one operation per kind of node it may care
/// about, each doing nothing unless the pass overrides it.
pub trait Visitor {
    fn visit_function_declaration(&mut self, _declaration: &FunctionDeclaration) {
    }

    fn visit_class_declaration(&mut self, _declaration: &ClassDeclaration) {
    }

    fn visit_generic_function_call(&mut self, _call: &FunctionCall) {
    }

    fn visit_generic_variable_declaration(&mut self, _declaration: &TypeDeclaration) {
    }

    fn visitor_type(&self) -> VisitorType;
}

/// A node of the syntax tree that hands itself to a pass.
pub trait Visited {
    fn accept<T: Visitor>(&self, visitor: &mut T);
}

impl Visited for FunctionDeclaration {
    fn accept<T: Visitor>(&self, visitor: &mut T) {
        visitor.visit_function_declaration(self);
    }
}

impl Visited for ClassDeclaration {
    fn accept<T: Visitor>(&self, visitor: &mut T) {
        visitor.visit_class_declaration(self);
    }
}

impl Visited for FunctionCall {
    fn accept<T: Visitor>(&self, visitor: &mut T) {
        visitor.visit_generic_function_call(self);
    }
}

impl Visited for TypeDeclaration {
    fn accept<T: Visitor>(&self, visitor: &mut T) {
        visitor.visit_generic_variable_declaration(self);
    }
}

} // verus!
