use oxc_semantic2::builder::{
    build, flags_for, DeclarationKind, SemanticBuilder, SemanticResult, TraversalEvent,
};
use oxc_semantic2::flags::{
    BLOCK_SCOPED_VARIABLE, CATCH_VARIABLE, CLASS, CONST_VARIABLE, EXPORT, FUNCTION,
    FUNCTION_SCOPED_VARIABLE, IMPORT,
};
use oxc_semantic2::ids::{ReferenceId, ScopeId, Span, SymbolId};
use oxc_semantic2::scope::ScopeKind;

fn declare(name: &str, kind: DeclarationKind, start: u32) -> TraversalEvent {
    TraversalEvent::Declaration {
        span: Span::new(start, start + name.len() as u32),
        name: name.to_string(),
        kind,
        exported: false,
    }
}

fn use_of(name: &str, start: u32) -> TraversalEvent {
    TraversalEvent::IdentifierReference {
        span: Span::new(start, start + name.len() as u32),
        name: name.to_string(),
    }
}

fn diagnostics_of(events: Vec<TraversalEvent>) -> usize {
    build(&events).diagnostics.len()
}

#[test]
fn let_twice_in_one_block_is_a_redeclaration() {
    let events = vec![
        TraversalEvent::EnterScope(ScopeKind::Block),
        declare("x", DeclarationKind::Let, 6),
        declare("x", DeclarationKind::Let, 17),
        TraversalEvent::LeaveScope,
    ];
    let result = build(&events);
    assert_eq!(result.diagnostics.len(), 1);
    assert_eq!(result.diagnostics[0].name, "x");
    assert_eq!(result.diagnostics[0].span, Span::new(17, 18));
    assert_eq!(result.diagnostics[0].previous_span, Span::new(6, 7));
    assert_eq!(result.symbols.len(), 2);
}

#[test]
fn var_twice_in_one_function_is_allowed() {
    let events = vec![
        TraversalEvent::EnterScope(ScopeKind::Function),
        declare("x", DeclarationKind::Var, 6),
        declare("x", DeclarationKind::Var, 17),
        TraversalEvent::LeaveScope,
    ];
    assert_eq!(diagnostics_of(events), 0);
}

#[test]
fn var_then_let_is_a_redeclaration() {
    let events = vec![declare("x", DeclarationKind::Var, 4), declare("x", DeclarationKind::Let, 15)];
    assert_eq!(diagnostics_of(events), 1);
}

#[test]
fn class_twice_is_a_redeclaration() {
    let events =
        vec![declare("X", DeclarationKind::Class, 6), declare("X", DeclarationKind::Class, 17)];
    assert_eq!(diagnostics_of(events), 1);
}

#[test]
fn hoisted_var_meets_let_of_the_function_scope() {
    let events = vec![
        TraversalEvent::EnterScope(ScopeKind::Function),
        TraversalEvent::EnterScope(ScopeKind::Block),
        declare("x", DeclarationKind::Var, 20),
        TraversalEvent::LeaveScope,
        declare("x", DeclarationKind::Let, 30),
        TraversalEvent::LeaveScope,
    ];
    let result = build(&events);
    assert_eq!(result.diagnostics.len(), 1);
    assert_eq!(result.symbols.get_scope_id(SymbolId(0)), ScopeId(1));
    assert_eq!(result.symbols.get_scope_id(SymbolId(1)), ScopeId(1));
}

#[test]
fn function_reads_outer_let() {
    // let a = 1; function f() { return a; }
    let events = vec![
        declare("a", DeclarationKind::Let, 4),
        declare("f", DeclarationKind::Function, 20),
        TraversalEvent::EnterScope(ScopeKind::Function),
        use_of("a", 33),
        TraversalEvent::LeaveScope,
    ];
    let result = build(&events);
    assert_eq!(result.symbols.len(), 2);
    assert_eq!(result.symbols.get_name(SymbolId(0)), "a");
    assert_eq!(result.symbols.get_flag(SymbolId(0)).bits(), BLOCK_SCOPED_VARIABLE);
    assert_eq!(result.symbols.get_flag(SymbolId(0)).bits() & CONST_VARIABLE, 0);
    assert_eq!(result.symbols.get_name(SymbolId(1)), "f");
    assert_eq!(result.symbols.get_flag(SymbolId(1)).bits(), FUNCTION);
    assert_eq!(result.symbols.references_len(), 1);
    assert!(!result.symbols.is_global_reference(ReferenceId(0)));
    assert_eq!(result.symbols.get_reference(ReferenceId(0)).symbol_id, Some(SymbolId(0)));
    assert_eq!(result.symbols.get_resolved_references(SymbolId(0)), &vec![ReferenceId(0)]);
    assert!(result.symbols.get_resolved_references(SymbolId(1)).is_empty());
    assert_eq!(result.diagnostics.len(), 0);
}

#[test]
fn undeclared_assignment_is_global() {
    // y = 1;
    let result = build(&vec![use_of("y", 0)]);
    assert_eq!(result.symbols.references_len(), 1);
    assert!(result.symbols.is_global_reference(ReferenceId(0)));
    assert_eq!(result.symbols.len(), 0);
    assert!(result.symbols.is_empty());
    assert_eq!(result.diagnostics.len(), 0);
}

#[test]
fn symbol_scope_is_hoisted_for_var_only() {
    let events = vec![
        TraversalEvent::EnterScope(ScopeKind::Function),
        TraversalEvent::EnterScope(ScopeKind::Block),
        declare("v", DeclarationKind::Var, 10),
        declare("l", DeclarationKind::Let, 20),
        declare("p", DeclarationKind::Parameter, 30),
        TraversalEvent::LeaveScope,
        TraversalEvent::LeaveScope,
    ];
    let result = build(&events);
    assert_eq!(result.symbols.get_scope_id(SymbolId(0)), ScopeId(1));
    assert_eq!(result.symbols.get_scope_id(SymbolId(1)), ScopeId(2));
    assert_eq!(result.symbols.get_scope_id(SymbolId(2)), ScopeId(1));
    assert_eq!(result.scopes.get_binding(ScopeId(1), &"v".to_string()), Some(SymbolId(0)));
    assert_eq!(result.scopes.get_binding(ScopeId(2), &"v".to_string()), None);
}

#[test]
fn references_listed_once_in_source_order() {
    let events = vec![
        declare("x", DeclarationKind::Let, 4),
        use_of("x", 10),
        use_of("z", 12),
        TraversalEvent::EnterScope(ScopeKind::Block),
        use_of("x", 20),
        TraversalEvent::LeaveScope,
        use_of("x", 30),
    ];
    let result = build(&events);
    assert_eq!(
        result.symbols.get_resolved_references(SymbolId(0)),
        &vec![ReferenceId(0), ReferenceId(2), ReferenceId(3)]
    );
    assert!(result.symbols.is_global_reference(ReferenceId(1)));
}

#[test]
fn binding_in_a_closed_sibling_scope_is_not_seen() {
    let events = vec![
        TraversalEvent::EnterScope(ScopeKind::Block),
        declare("x", DeclarationKind::Let, 4),
        TraversalEvent::LeaveScope,
        TraversalEvent::EnterScope(ScopeKind::Block),
        use_of("x", 20),
        TraversalEvent::LeaveScope,
    ];
    let result = build(&events);
    assert!(result.symbols.is_global_reference(ReferenceId(0)));
    assert!(result.symbols.get_resolved_references(SymbolId(0)).is_empty());
}

#[test]
fn use_before_later_declaration_stays_global() {
    let events = vec![use_of("x", 0), declare("x", DeclarationKind::Var, 10)];
    let result = build(&events);
    assert!(result.symbols.is_global_reference(ReferenceId(0)));
}

#[test]
fn inner_declaration_shadows_outer() {
    let events = vec![
        declare("x", DeclarationKind::Let, 4),
        TraversalEvent::EnterScope(ScopeKind::Block),
        declare("x", DeclarationKind::Const, 14),
        use_of("x", 20),
        TraversalEvent::LeaveScope,
        use_of("x", 30),
    ];
    let result = build(&events);
    assert_eq!(result.diagnostics.len(), 0);
    assert_eq!(result.symbols.get_flag(SymbolId(1)).bits(), BLOCK_SCOPED_VARIABLE | CONST_VARIABLE);
    assert_eq!(result.symbols.get_reference(ReferenceId(0)).symbol_id, Some(SymbolId(1)));
    assert_eq!(result.symbols.get_reference(ReferenceId(1)).symbol_id, Some(SymbolId(0)));
}

#[test]
fn building_twice_gives_the_same_result() {
    let events = vec![
        declare("a", DeclarationKind::Var, 4),
        TraversalEvent::EnterScope(ScopeKind::Function),
        declare("b", DeclarationKind::Class, 10),
        declare("b", DeclarationKind::Let, 20),
        use_of("a", 30),
        use_of("b", 32),
        use_of("c", 34),
        TraversalEvent::LeaveScope,
    ];
    let first: SemanticResult = build(&events);
    let second: SemanticResult = build(&events);
    assert_eq!(first.symbols.len(), second.symbols.len());
    assert_eq!(first.symbols.references_len(), second.symbols.references_len());
    assert_eq!(first.scopes.len(), second.scopes.len());
    assert_eq!(first.diagnostics.len(), second.diagnostics.len());
    for i in 0..first.symbols.len() as u32 {
        let id = SymbolId(i);
        assert_eq!(first.symbols.get_name(id), second.symbols.get_name(id));
        assert_eq!(first.symbols.get_flag(id), second.symbols.get_flag(id));
        assert_eq!(first.symbols.get_scope_id(id), second.symbols.get_scope_id(id));
        assert_eq!(first.symbols.get_resolved_references(id), second.symbols.get_resolved_references(id));
    }
    for i in 0..first.symbols.references_len() as u32 {
        let id = ReferenceId(i);
        assert_eq!(first.symbols.get_reference(id).symbol_id, second.symbols.get_reference(id).symbol_id);
    }
}

#[test]
fn exported_declaration_carries_export_flag() {
    let events = vec![TraversalEvent::Declaration {
        span: Span::new(13, 14),
        name: "k".to_string(),
        kind: DeclarationKind::Const,
        exported: true,
    }];
    let result = build(&events);
    assert_eq!(
        result.symbols.get_flag(SymbolId(0)).bits(),
        BLOCK_SCOPED_VARIABLE | CONST_VARIABLE | EXPORT
    );
}

#[test]
fn builder_steps_by_hand() {
    let mut builder = SemanticBuilder::new();
    let scope = builder.enter_scope(ScopeKind::Function);
    assert_eq!(scope, ScopeId(1));
    let p = builder.declare(Span::new(11, 12), "p".to_string(), DeclarationKind::Parameter, false);
    let r = builder.reference(Span::new(20, 21), "p".to_string());
    builder.leave_scope();
    builder.leave_scope();
    let q = builder.reference(Span::new(30, 31), "p".to_string());
    builder.visit(&TraversalEvent::EnterScope(ScopeKind::Block));
    let result = builder.finish();
    assert_eq!(p, SymbolId(0));
    assert_eq!(result.symbols.get_reference(r).symbol_id, Some(p));
    assert!(result.symbols.is_global_reference(q));
    assert_eq!(result.scopes.len(), 3);
    assert_eq!(result.scopes.get_parent_id(ScopeId(2)), Some(ScopeId(0)));
}

#[test]
fn flags_for_each_declaration_kind() {
    assert_eq!(flags_for(DeclarationKind::Var, false).bits(), FUNCTION_SCOPED_VARIABLE);
    assert_eq!(flags_for(DeclarationKind::Parameter, false).bits(), FUNCTION_SCOPED_VARIABLE);
    assert_eq!(flags_for(DeclarationKind::Let, false).bits(), BLOCK_SCOPED_VARIABLE);
    assert_eq!(
        flags_for(DeclarationKind::Const, false).bits(),
        BLOCK_SCOPED_VARIABLE | CONST_VARIABLE
    );
    assert_eq!(flags_for(DeclarationKind::Function, false).bits(), FUNCTION);
    assert_eq!(flags_for(DeclarationKind::Class, true).bits(), CLASS | EXPORT);
    assert_eq!(flags_for(DeclarationKind::CatchParameter, false).bits(), CATCH_VARIABLE);
    assert_eq!(flags_for(DeclarationKind::Import, false).bits(), IMPORT);
}
