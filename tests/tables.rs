use oxc_semantic2::flags::{SymbolFlags, BLOCK_SCOPED_VARIABLE, FUNCTION_SCOPED_VARIABLE};
use oxc_semantic2::ids::{ReferenceId, ScopeId, Span, SymbolId};
use oxc_semantic2::scope::{ScopeKind, ScopeTree};
use oxc_semantic2::symbol::SymbolTable;

#[test]
fn symbol_table_starts_empty() {
    let table = SymbolTable::new();
    assert_eq!(table.len(), 0);
    assert!(table.is_empty());
    assert_eq!(table.references_len(), 0);
}

#[test]
fn create_symbol_mints_dense_ids() {
    let mut table = SymbolTable::new();
    let a = table.create_symbol(
        Span::new(0, 1),
        "a".to_string(),
        SymbolFlags::from_bits(BLOCK_SCOPED_VARIABLE),
        ScopeId(0),
    );
    let b = table.create_symbol(
        Span::new(4, 5),
        "b".to_string(),
        SymbolFlags::from_bits(FUNCTION_SCOPED_VARIABLE),
        ScopeId(3),
    );
    assert_eq!(a, SymbolId(0));
    assert_eq!(b, SymbolId(1));
    assert_eq!(table.len(), 2);
    assert!(!table.is_empty());
    assert_eq!(table.get_name(b), "b");
    assert_eq!(table.get_flag(a).bits(), BLOCK_SCOPED_VARIABLE);
    assert_eq!(table.get_scope_id(b), ScopeId(3));
    assert_eq!(table.get_span(b), Span::new(4, 5));
    assert!(table.get_resolved_references(a).is_empty());
}

#[test]
fn references_start_global() {
    let mut table = SymbolTable::new();
    let r = table.create_reference(Span::new(0, 1), "y".to_string());
    assert_eq!(r, ReferenceId(0));
    assert!(table.is_global_reference(r));
    assert_eq!(table.get_reference(r).name, "y");
    assert_eq!(table.get_reference(r).symbol_id, None);
}

#[test]
fn resolved_references_stay_in_creation_order() {
    let mut table = SymbolTable::new();
    let s = table.create_symbol(
        Span::new(0, 1),
        "x".to_string(),
        SymbolFlags::from_bits(BLOCK_SCOPED_VARIABLE),
        ScopeId(0),
    );
    let r0 = table.create_reference(Span::new(2, 3), "x".to_string());
    let r1 = table.create_reference(Span::new(4, 5), "x".to_string());
    let r2 = table.create_reference(Span::new(6, 7), "x".to_string());
    table.resolve_reference(r2, s);
    table.resolve_reference(r0, s);
    table.resolve_reference(r1, s);
    assert_eq!(table.get_resolved_references(s), &vec![r0, r1, r2]);
    assert!(!table.is_global_reference(r1));
    assert_eq!(table.get_reference(r2).symbol_id, Some(s));
}

#[test]
fn scope_tree_lookup_and_shadowing() {
    let mut scopes = ScopeTree::new();
    let root = scopes.root_scope_id();
    assert_eq!(root, ScopeId(0));
    let function = scopes.push_scope(root, ScopeKind::Function);
    let block = scopes.push_scope(function, ScopeKind::Block);
    assert_eq!(scopes.len(), 3);
    assert_eq!(scopes.get_parent_id(block), Some(function));
    assert_eq!(scopes.get_parent_id(root), None);
    assert_eq!(scopes.get_kind(block), ScopeKind::Block);
    let x = "x".to_string();
    scopes.declare_binding(root, x.clone(), SymbolId(0));
    assert_eq!(scopes.resolve_binding(block, &x), Some(SymbolId(0)));
    scopes.declare_binding(function, x.clone(), SymbolId(1));
    assert_eq!(scopes.resolve_binding(block, &x), Some(SymbolId(1)));
    assert_eq!(scopes.get_binding(block, &x), None);
    scopes.declare_binding(function, x.clone(), SymbolId(2));
    assert_eq!(scopes.get_binding(function, &x), Some(SymbolId(2)));
    assert_eq!(scopes.resolve_binding(block, &"z".to_string()), None);
}

#[test]
fn hoisting_target_is_nearest_function_scope() {
    let mut scopes = ScopeTree::new();
    let root = scopes.root_scope_id();
    let block = scopes.push_scope(root, ScopeKind::Block);
    let function = scopes.push_scope(block, ScopeKind::Function);
    let inner = scopes.push_scope(function, ScopeKind::Block);
    let innermost = scopes.push_scope(inner, ScopeKind::Block);
    assert_eq!(scopes.hoisting_target(innermost), function);
    assert_eq!(scopes.hoisting_target(function), function);
    assert_eq!(scopes.hoisting_target(block), root);
}
