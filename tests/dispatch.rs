use wss_context::{
    ClassDeclaration, FunctionCall, FunctionDeclaration, TypeDeclaration, Visited, Visitor,
    VisitorType,
};

struct Recorder {
    seen: Vec<String>,
}

impl Visitor for Recorder {
    fn visit_function_declaration(&mut self, d: &FunctionDeclaration) {
        self.seen.push(format!("fn {}", d.name));
    }

    fn visit_generic_function_call(&mut self, c: &FunctionCall) {
        self.seen.push(format!("call {}<{}>", c.name, c.generic_types.join(",")));
    }

    fn visitor_type(&self) -> VisitorType {
        VisitorType::GenericCallsVisitor
    }
}

#[test]
fn accept_dispatches_to_matching_visit() {
    let mut r = Recorder { seen: vec![] };
    FunctionDeclaration { name: "main".to_string(), generic_types: None }.accept(&mut r);
    FunctionCall { name: "id".to_string(), generic_types: vec!["Int".to_string()] }.accept(&mut r);
    assert_eq!(r.seen, vec!["fn main".to_string(), "call id<Int>".to_string()]);
}

#[test]
fn unhandled_kinds_do_nothing() {
    let mut r = Recorder { seen: vec![] };
    ClassDeclaration { name: "List".to_string(), generic_types: Some(vec!["T".to_string()]) }
        .accept(&mut r);
    TypeDeclaration { name: "xs".to_string(), generic_types: vec!["Int".to_string()] }
        .accept(&mut r);
    assert!(r.seen.is_empty());
    assert_eq!(r.visitor_type(), VisitorType::GenericCallsVisitor);
}
