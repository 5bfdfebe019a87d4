use wss_context::{Context, ContextTree};

fn node(tree: &mut ContextTree, name: &str) -> usize {
    tree.add(Context::new(name, None))
}

fn generic_node(tree: &mut ContextTree, name: &str, params: &[&str]) -> usize {
    let params = params.iter().map(|p| p.to_string()).collect();
    tree.add(Context::new(name, Some(params)))
}

#[test]
fn new_context_is_detached_and_plain() {
    let c = Context::new("function: main", None);
    assert_eq!(c.name, "function: main");
    assert!(c.identifiers.is_empty());
    assert!(c.children_contexts.is_empty());
    assert!(c.parent_context.is_none());
    assert!(c.generic_context.is_none());
    assert!(!c.is_library);
    assert!(c.mangled_accessor.is_none());
}

#[test]
fn new_context_with_generics_gets_empty_record() {
    let c = Context::new("function: id", Some(vec!["T".to_string(), "U".to_string()]));
    let g = c.generic_context.unwrap();
    assert_eq!(g.types, vec!["T".to_string(), "U".to_string()]);
    assert!(g.translation_variants.is_empty());
    assert!(g.currently_used_variant.is_none());
}

#[test]
fn set_as_library_assigns_accessor() {
    let mut c = Context::new("class: List", None);
    c.set_as_library();
    assert!(c.is_library);
    let a = c.mangled_accessor.clone().unwrap();
    assert_eq!(a.len(), 35);
    assert!(a.starts_with("wss"));
    assert!(a[3..].chars().all(|ch| ch.is_ascii_digit() || ('a'..='f').contains(&ch)));
}

#[test]
fn library_accessors_are_distinct() {
    let mut a = Context::new("a", None);
    let mut b = Context::new("b", None);
    a.set_as_library();
    b.set_as_library();
    assert_ne!(a.mangled_accessor, b.mangled_accessor);
}

#[test]
fn attach_lists_child_once_and_sets_parent() {
    let mut tree = ContextTree::new();
    let root = node(&mut tree, "program");
    let file = node(&mut tree, "file: a");
    Context::set_parent_context(&mut tree, file, root);
    assert_eq!(tree.contexts[root].children_contexts, vec![file]);
    assert_eq!(tree.contexts[file].parent_context, Some(root));
    // attaching again to the same parent keeps a single entry
    Context::set_parent_context(&mut tree, file, root);
    assert_eq!(tree.contexts[root].children_contexts, vec![file]);
}

#[test]
fn reattach_moves_child_between_parents() {
    let mut tree = ContextTree::new();
    let old_parent = node(&mut tree, "file: a");
    let new_parent = node(&mut tree, "file: b");
    let c = node(&mut tree, "function: f");
    let d = node(&mut tree, "function: g");
    Context::set_parent_context(&mut tree, c, old_parent);
    Context::set_parent_context(&mut tree, d, old_parent);
    Context::set_parent_context(&mut tree, c, new_parent);
    assert_eq!(tree.contexts[old_parent].children_contexts, vec![d]);
    assert_eq!(tree.contexts[new_parent].children_contexts, vec![c]);
    assert_eq!(tree.contexts[c].parent_context, Some(new_parent));
    assert_eq!(tree.contexts[d].parent_context, Some(old_parent));
}

#[test]
fn detach_then_attach_elsewhere() {
    let mut tree = ContextTree::new();
    let old_parent = node(&mut tree, "file: a");
    let new_parent = node(&mut tree, "file: b");
    let c = node(&mut tree, "function: f");
    Context::set_parent_context(&mut tree, c, old_parent);
    Context::remove_child(&mut tree, old_parent, c);
    assert!(tree.contexts[old_parent].children_contexts.is_empty());
    assert_eq!(tree.contexts[c].parent_context, None);
    Context::set_parent_context(&mut tree, c, new_parent);
    assert!(tree.contexts[old_parent].children_contexts.is_empty());
    assert_eq!(tree.contexts[new_parent].children_contexts, vec![c]);
    assert_eq!(tree.contexts[c].parent_context, Some(new_parent));
}

#[test]
fn remove_child_swaps_last_into_place() {
    let mut tree = ContextTree::new();
    let p = node(&mut tree, "file: a");
    let a = node(&mut tree, "a");
    let b = node(&mut tree, "b");
    let c = node(&mut tree, "c");
    Context::set_parent_context(&mut tree, a, p);
    Context::set_parent_context(&mut tree, b, p);
    Context::set_parent_context(&mut tree, c, p);
    Context::remove_child(&mut tree, p, a);
    assert_eq!(tree.contexts[p].children_contexts, vec![c, b]);
}

#[test]
fn remove_child_of_stranger_is_no_op() {
    let mut tree = ContextTree::new();
    let p = node(&mut tree, "file: a");
    let q = node(&mut tree, "file: b");
    let a = node(&mut tree, "a");
    Context::set_parent_context(&mut tree, a, p);
    Context::remove_child(&mut tree, q, a);
    assert_eq!(tree.contexts[p].children_contexts, vec![a]);
    assert_eq!(tree.contexts[a].parent_context, Some(p));
}

#[test]
fn library_flag_propagates_on_attach() {
    let mut tree = ContextTree::new();
    let lib = node(&mut tree, "class: Lib");
    let child = node(&mut tree, "function: f");
    let grandchild = node(&mut tree, "function: g");
    tree.contexts[lib].set_as_library();
    Context::set_parent_context(&mut tree, child, lib);
    Context::set_parent_context(&mut tree, grandchild, child);
    for n in [child, grandchild] {
        assert!(tree.contexts[n].is_library);
        assert!(!tree.contexts[n].mangled_accessor.as_ref().unwrap().is_empty());
    }
}

#[test]
fn library_flag_is_not_retroactive() {
    let mut tree = ContextTree::new();
    let lib = node(&mut tree, "class: Lib");
    let early = node(&mut tree, "function: early");
    Context::set_parent_context(&mut tree, early, lib);
    tree.contexts[lib].set_as_library();
    assert!(!tree.contexts[early].is_library);
    assert!(tree.contexts[early].mangled_accessor.is_none());
}

#[test]
fn top_most_context_from_any_depth() {
    let mut tree = ContextTree::new();
    let root = node(&mut tree, "program");
    let file = node(&mut tree, "file: a");
    let f = node(&mut tree, "function: f");
    Context::set_parent_context(&mut tree, file, root);
    Context::set_parent_context(&mut tree, f, file);
    assert_eq!(Context::get_top_most_context(&tree, f), root);
    assert_eq!(Context::get_top_most_context(&tree, file), root);
    assert_eq!(Context::get_top_most_context(&tree, root), root);
}

fn program_with_two_files() -> (ContextTree, Vec<usize>) {
    let mut tree = ContextTree::new();
    let root = node(&mut tree, "program");
    let a = node(&mut tree, "file: a");
    let b = node(&mut tree, "file: b");
    let foo = node(&mut tree, "function: foo");
    let bar = node(&mut tree, "class: bar");
    let inner = node(&mut tree, "function: inner");
    let body = node(&mut tree, "block");
    Context::set_parent_context(&mut tree, a, root);
    Context::set_parent_context(&mut tree, b, root);
    Context::set_parent_context(&mut tree, bar, a);
    Context::set_parent_context(&mut tree, foo, b);
    Context::set_parent_context(&mut tree, body, foo);
    Context::set_parent_context(&mut tree, inner, body);
    (tree, vec![root, a, b, foo, bar, inner, body])
}

#[test]
fn find_global_function_from_anywhere() {
    let (tree, ids) = program_with_two_files();
    let foo = ids[3];
    for start in ids.iter() {
        assert_eq!(Context::find_global_function_declaration(&tree, *start, "foo"), Some(foo));
    }
}

#[test]
fn find_global_class() {
    let (tree, ids) = program_with_two_files();
    assert_eq!(Context::find_global_class_declaration(&tree, ids[5], "bar"), Some(ids[4]));
    assert_eq!(Context::find_global_class_declaration(&tree, ids[0], "foo"), None);
}

#[test]
fn find_global_ignores_nested_declarations() {
    let (tree, ids) = program_with_two_files();
    assert_eq!(Context::find_global_function_declaration(&tree, ids[0], "inner"), None);
    assert_eq!(Context::find_global_function_declaration(&tree, ids[0], "missing"), None);
}

#[test]
fn find_global_takes_first_file_in_order() {
    let mut tree = ContextTree::new();
    let root = node(&mut tree, "program");
    let a = node(&mut tree, "file: a");
    let b = node(&mut tree, "file: b");
    let f1 = node(&mut tree, "function: dup");
    let f2 = node(&mut tree, "function: dup");
    Context::set_parent_context(&mut tree, a, root);
    Context::set_parent_context(&mut tree, b, root);
    Context::set_parent_context(&mut tree, f2, b);
    Context::set_parent_context(&mut tree, f1, a);
    assert_eq!(Context::find_global_function_declaration(&tree, f2, "dup"), Some(f1));
}

#[test]
fn resolve_through_three_levels() {
    let mut tree = ContextTree::new();
    let root = node(&mut tree, "program");
    let a = generic_node(&mut tree, "function: f", &["T"]);
    let b = node(&mut tree, "block");
    Context::set_parent_context(&mut tree, a, root);
    Context::set_parent_context(&mut tree, b, a);
    let g = tree.contexts[a].generic_context.as_mut().unwrap();
    g.add_generic_variant(vec![("T".to_string(), "Int".to_string())]);
    g.set_active_variant(Some("Int".to_string()));
    assert_eq!(Context::transform_if_generic_type(&tree, b, "T"), "Int");
    assert_eq!(Context::transform_if_generic_type(&tree, b, "x"), "x");
}

#[test]
fn nearest_binding_wins() {
    let mut tree = ContextTree::new();
    let outer = generic_node(&mut tree, "class: Box", &["T"]);
    let inner = generic_node(&mut tree, "function: map", &["T"]);
    Context::set_parent_context(&mut tree, inner, outer);
    let g = tree.contexts[outer].generic_context.as_mut().unwrap();
    g.add_generic_variant(vec![("T".to_string(), "Int".to_string())]);
    g.set_active_variant(Some("Int".to_string()));
    let h = tree.contexts[inner].generic_context.as_mut().unwrap();
    h.add_generic_variant(vec![("T".to_string(), "Str".to_string())]);
    h.set_active_variant(Some("Str".to_string()));
    assert_eq!(Context::transform_if_generic_type(&tree, inner, "T"), "Str");
    assert_eq!(Context::transform_if_generic_type(&tree, outer, "T"), "Int");
}

#[test]
fn no_active_variant_falls_through() {
    let mut tree = ContextTree::new();
    let a = generic_node(&mut tree, "function: f", &["T"]);
    tree.contexts[a]
        .generic_context
        .as_mut()
        .unwrap()
        .add_generic_variant(vec![("T".to_string(), "Int".to_string())]);
    assert_eq!(Context::transform_if_generic_type(&tree, a, "T"), "T");
}

#[test]
fn plain_scopes_resolve_to_themselves() {
    let (tree, ids) = program_with_two_files();
    for n in ids {
        assert_eq!(Context::transform_if_generic_type(&tree, n, "T"), "T");
        assert_eq!(Context::transform_if_generic_type(&tree, n, "value"), "value");
        assert_eq!(Context::transform_if_generic_type(&tree, n, ""), "");
    }
}

#[test]
fn register_generic_call_records_variant() {
    let mut c = Context::new("function: pair", Some(vec!["A".to_string(), "B".to_string()]));
    let r = c.register_generic_call(&vec!["Int".to_string(), "Str".to_string()]);
    assert_eq!(r, None);
    let g = c.generic_context.as_ref().unwrap();
    assert_eq!(g.translation_variants.len(), 1);
    let (key, mapping) = &g.translation_variants[0];
    assert_eq!(key, "IntStr");
    assert_eq!(
        mapping,
        &vec![("A".to_string(), "Int".to_string()), ("B".to_string(), "Str".to_string())]
    );
}

#[test]
fn register_generic_call_twice_keeps_one_variant() {
    let mut c = Context::new("function: id", Some(vec!["T".to_string()]));
    c.register_generic_call(&vec!["Int".to_string()]);
    c.register_generic_call(&vec!["Int".to_string()]);
    c.register_generic_call(&vec!["Str".to_string()]);
    let g = c.generic_context.as_ref().unwrap();
    assert_eq!(g.translation_variants.len(), 2);
    assert_eq!(g.translation_variants[1].0, "Str");
}

#[test]
fn register_generic_call_returns_accessor_for_library() {
    let mut c = Context::new("function: id", Some(vec!["T".to_string()]));
    c.set_as_library();
    let r = c.register_generic_call(&vec!["Int".to_string()]);
    assert_eq!(r, c.mangled_accessor);
    assert!(r.is_some());
}

#[test]
fn register_call_on_plain_node() {
    let mut c = Context::new("function: plain", None);
    assert_eq!(c.register_generic_call(&vec![]), None);
    assert!(c.generic_context.is_none());
}

#[test]
fn outline_indents_by_depth_in_child_order() {
    let (tree, ids) = program_with_two_files();
    let lines = Context::outline(&tree, ids[0], 0);
    assert_eq!(
        lines,
        vec![
            "program".to_string(),
            "  file: a".to_string(),
            "    class: bar".to_string(),
            "  file: b".to_string(),
            "    function: foo".to_string(),
            "      block".to_string(),
            "        function: inner".to_string(),
        ]
    );
}

#[test]
fn outline_of_leaf_at_depth() {
    let (tree, ids) = program_with_two_files();
    assert_eq!(Context::outline(&tree, ids[5], 2), vec!["    function: inner".to_string()]);
}

#[test]
fn set_as_library_with_prefixes_identifier() {
    let mut c = Context::new("class: List", None);
    let hex = "0123456789abcdef0123456789abcdef".to_string();
    c.set_as_library_with(hex.clone());
    assert!(c.is_library);
    assert_eq!(c.mangled_accessor, Some(format!("wss{}", hex)));
}

#[test]
fn different_identifiers_give_different_accessors() {
    let mut a = Context::new("a", None);
    let mut b = Context::new("b", None);
    a.set_as_library_with("00000000000000000000000000000000".to_string());
    b.set_as_library_with("00000000000000000000000000000001".to_string());
    assert_eq!(a.mangled_accessor.as_deref(), Some("wss00000000000000000000000000000000"));
    assert_eq!(b.mangled_accessor.as_deref(), Some("wss00000000000000000000000000000001"));
    assert_ne!(a.mangled_accessor, b.mangled_accessor);
}

#[test]
fn library_marking_reaches_grandchild_attached_later() {
    let mut tree = ContextTree::new();
    let lib = node(&mut tree, "class: Lib");
    let child = node(&mut tree, "function: f");
    let grandchild = node(&mut tree, "block");
    tree.contexts[lib].set_as_library();
    Context::set_parent_context(&mut tree, child, lib);
    Context::set_parent_context(&mut tree, grandchild, child);
    assert!(tree.contexts[child].is_library);
    assert!(tree.contexts[grandchild].is_library);
    assert_ne!(tree.contexts[child].mangled_accessor, tree.contexts[grandchild].mangled_accessor);
}
