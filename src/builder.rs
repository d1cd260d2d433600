use vstd::prelude::*;

use crate::flags::{
    conflicts, SymbolFlags, BLOCK_SCOPED_VARIABLE, CATCH_VARIABLE, CLASS, CONST_VARIABLE, EXPORT,
    FUNCTION, FUNCTION_SCOPED_VARIABLE, IMPORT,
};
use crate::ids::{ReferenceId, ScopeId, Span, SymbolId};
use crate::scope::{binding_in, ScopeKind, ScopeTree, ScopeTreeView};
use crate::symbol::{
    lemma_resolved_reference_listed_once, strictly_increasing, SymbolTable, SymbolTableView,
};

verus! {

/// The kind of a declaration site.
#[derive(Clone, Copy, Debug, PartialEq, Eq, Structural, Hash)]
pub enum DeclarationKind {
    Var,
    Parameter,
    Let,
    Const,
    Function,
    Class,
    CatchParameter,
    Import,
}

pub open spec fn kind_bits(kind: DeclarationKind) -> u16 {
    match kind {
        DeclarationKind::Var => FUNCTION_SCOPED_VARIABLE,
        DeclarationKind::Parameter => FUNCTION_SCOPED_VARIABLE,
        DeclarationKind::Let => BLOCK_SCOPED_VARIABLE,
        DeclarationKind::Const => BLOCK_SCOPED_VARIABLE | CONST_VARIABLE,
        DeclarationKind::Function => FUNCTION,
        DeclarationKind::Class => CLASS,
        DeclarationKind::CatchParameter => CATCH_VARIABLE,
        DeclarationKind::Import => IMPORT,
    }
}

/// The flags of a declaration of this kind, inside an export declaration or not.
pub open spec fn declaration_bits(kind: DeclarationKind, exported: bool) -> u16 {
    if exported {
        kind_bits(kind) | EXPORT
    } else {
        kind_bits(kind)
    }
}

/// The flags that a declaration of this kind receives.
pub fn flags_for(kind: DeclarationKind, exported: bool) -> (r: SymbolFlags)
    ensures
        r.bits == declaration_bits(kind, exported),
{
    let bits: u16 = match kind {
        DeclarationKind::Var => FUNCTION_SCOPED_VARIABLE,
        DeclarationKind::Parameter => FUNCTION_SCOPED_VARIABLE,
        DeclarationKind::Let => BLOCK_SCOPED_VARIABLE,
        DeclarationKind::Const => BLOCK_SCOPED_VARIABLE | CONST_VARIABLE,
        DeclarationKind::Function => FUNCTION,
        DeclarationKind::Class => CLASS,
        DeclarationKind::CatchParameter => CATCH_VARIABLE,
        DeclarationKind::Import => IMPORT,
    };
    if exported {
        SymbolFlags::from_bits(bits | EXPORT)
    } else {
        SymbolFlags::from_bits(bits)
    }
}

/// One step of a depth-first, left-to-right walk of a syntax tree: a node that opens a scope,
/// the end of that node, a declaration site, or an identifier that is a use.
pub enum TraversalEvent {
    EnterScope(ScopeKind),
    LeaveScope,
    Declaration { span: Span, name: String, kind: DeclarationKind, exported: bool },
    IdentifierReference { span: Span, name: String },
}

/// A name declared twice, in one scope, by declarations whose kinds exclude each other.
pub struct Redeclaration {
    pub name: String,
    pub span: Span,
    pub previous_span: Span,
}

/// Each diagnostic as (name, span, previous span).
pub open spec fn diagnostics_view(d: Seq<Redeclaration>) -> Seq<(Seq<char>, Span, Span)> {
    d.map_values(|x: Redeclaration| (x.name@, x.span, x.previous_span))
}

/// The mathematical content of a builder: what it has built, the stack of open scopes (the
/// root at the bottom) and the diagnostics as (name, span, previous span).
pub struct BuilderView {
    pub symbols: SymbolTableView,
    pub scopes: ScopeTreeView,
    pub stack: Seq<ScopeId>,
    pub diagnostics: Seq<(Seq<char>, Span, Span)>,
}

impl BuilderView {
    pub open spec fn initial() -> BuilderView {
        BuilderView {
            symbols: SymbolTableView::empty(),
            scopes: ScopeTreeView::root(),
            stack: seq![ScopeId(0)],
            diagnostics: seq![],
        }
    }

    /// Every symbol that a scope binds is in the table.
    pub open spec fn bindings_in_table(self) -> bool {
        forall|s: int, i: int|
            0 <= s < self.scopes.len() && 0 <= i < self.scopes.bindings[s].len() ==> (#[trigger] self.scopes.bindings[s][i]).1.0
                < self.symbols.len()
    }

    pub open spec fn wf(self) -> bool {
        &&& self.symbols.wf()
        &&& self.scopes.wf()
        &&& self.stack.len() >= 1
        &&& self.stack[0] == ScopeId(0)
        &&& forall|i: int| 0 <= i < self.stack.len() ==> (#[trigger] self.stack[i]).0 < self.scopes.len()
        &&& self.bindings_in_table()
    }

    /// The innermost open scope.
    pub open spec fn current(self) -> int {
        self.stack.last().0 as int
    }

    /// The scope that a declaration with these flags binds its name in: the nearest function
    /// scope for a function-scoped one, the current scope for any other.
    pub open spec fn declaration_scope(self, bits: u16) -> int {
        if bits & FUNCTION_SCOPED_VARIABLE != 0 {
            self.scopes.hoist_target(self.current())
        } else {
            self.current()
        }
    }

    pub open spec fn enter_scope(self, kind: ScopeKind) -> BuilderView {
        BuilderView {
            scopes: self.scopes.add_scope(ScopeId(self.current() as u32), kind),
            stack: self.stack.push(ScopeId(self.scopes.len() as u32)),
            ..self
        }
    }

    pub open spec fn leave_scope(self) -> BuilderView {
        if self.stack.len() > 1 {
            BuilderView { stack: self.stack.drop_last(), ..self }
        } else {
            self
        }
    }

    /// A declaration creates its symbol in its declaration scope and binds its name there;
    /// where that scope already binds the name to a symbol whose flags conflict, it also
    /// records a diagnostic.
    pub open spec fn declare(
        self,
        span: Span,
        name: Seq<char>,
        kind: DeclarationKind,
        exported: bool,
    ) -> BuilderView {
        let bits = declaration_bits(kind, exported);
        let target = self.declaration_scope(bits);
        let id = SymbolId(self.symbols.len() as u32);
        let diagnostics = match self.scopes.binding(target, name) {
            Some(e) => if conflicts(bits, self.symbols.flags[e.0 as int].bits) {
                self.diagnostics.push((name, span, self.symbols.spans[e.0 as int]))
            } else {
                self.diagnostics
            },
            None => self.diagnostics,
        };
        BuilderView {
            symbols: self.symbols.add_symbol(
                span,
                name,
                SymbolFlags { bits },
                ScopeId(target as u32),
            ),
            scopes: self.scopes.add_binding(target, name, id),
            diagnostics,
            ..self
        }
    }

    /// A use creates a reference and resolves it from the current scope, or leaves it global.
    pub open spec fn reference(self, name: Seq<char>) -> BuilderView {
        let id = ReferenceId(self.symbols.reference_count() as u32);
        let added = self.symbols.add_reference(name);
        BuilderView {
            symbols: match self.scopes.resolve(self.current(), name) {
                Some(s) => added.resolve(id, s),
                None => added,
            },
            ..self
        }
    }

    pub open spec fn step(self, event: TraversalEvent) -> BuilderView {
        match event {
            TraversalEvent::EnterScope(kind) => self.enter_scope(kind),
            TraversalEvent::LeaveScope => self.leave_scope(),
            TraversalEvent::Declaration { span, name, kind, exported } => self.declare(
                span,
                name@,
                kind,
                exported,
            ),
            TraversalEvent::IdentifierReference { span, name } => self.reference(name@),
        }
    }
}

/// The state after a walk that produced these events.
pub open spec fn run(events: Seq<TraversalEvent>) -> BuilderView
    decreases events.len(),
{
    if events.len() == 0 {
        BuilderView::initial()
    } else {
        run(events.drop_last()).step(events.last())
    }
}

proof fn lemma_binding_in_bound(b: Seq<(Seq<char>, SymbolId)>, name: Seq<char>, bound: nat)
    requires
        forall|i: int| 0 <= i < b.len() ==> (#[trigger] b[i]).1.0 < bound,
    ensures
        binding_in(b, name) is Some ==> binding_in(b, name)->Some_0.0 < bound,
    decreases b.len(),
{
    if b.len() > 0 {
        let d = b.drop_last();
        assert forall|i: int| 0 <= i < d.len() implies (#[trigger] d[i]).1.0 < bound by {
            assert(d[i] == b[i]);
        }
        lemma_binding_in_bound(d, name, bound);
    }
}

proof fn lemma_binding_bound(v: BuilderView, scope: int, name: Seq<char>)
    requires
        v.wf(),
        0 <= scope < v.scopes.len(),
    ensures
        v.scopes.binding(scope, name) is Some ==> v.scopes.binding(scope, name)->Some_0.0
            < v.symbols.len(),
{
    let b = v.scopes.bindings[scope];
    assert forall|i: int| 0 <= i < b.len() implies (#[trigger] b[i]).1.0 < v.symbols.len() by {
        assert(v.scopes.bindings[scope][i] == b[i]);
    }
    lemma_binding_in_bound(b, name, v.symbols.len());
}

proof fn lemma_resolve_bound(v: BuilderView, scope: int, name: Seq<char>)
    requires
        v.wf(),
        0 <= scope < v.scopes.len(),
    ensures
        v.scopes.resolve(scope, name) is Some ==> v.scopes.resolve(scope, name)->Some_0.0
            < v.symbols.len(),
    decreases scope,
{
    lemma_binding_bound(v, scope, name);
    if v.scopes.binding(scope, name) is None {
        if let Some(p) = v.scopes.parents[scope] {
            if p.0 < scope {
                lemma_resolve_bound(v, p.0 as int, name);
            }
        }
    }
}

proof fn lemma_hoist_target_bound(t: ScopeTreeView, scope: int)
    requires
        t.wf(),
        0 <= scope < t.len(),
    ensures
        0 <= t.hoist_target(scope) < t.len(),
    decreases scope,
{
    if t.kinds[scope] != ScopeKind::Function {
        if let Some(p) = t.parents[scope] {
            if p.0 < scope {
                lemma_hoist_target_bound(t, p.0 as int);
            }
        }
    }
}

/// A builder that owns the symbol table and scope tree while a walk is under way.
pub struct SemanticBuilder {
    symbols: SymbolTable,
    scopes: ScopeTree,
    stack: Vec<ScopeId>,
    diagnostics: Vec<Redeclaration>,
}

impl View for SemanticBuilder {
    type V = BuilderView;

    closed spec fn view(&self) -> BuilderView {
        BuilderView {
            symbols: self.symbols@,
            scopes: self.scopes@,
            stack: self.stack@,
            diagnostics: diagnostics_view(self.diagnostics@),
        }
    }
}

/// What a finished walk hands out: the symbol table, the scope tree and the diagnostics.
pub struct SemanticResult {
    pub symbols: SymbolTable,
    pub scopes: ScopeTree,
    pub diagnostics: Vec<Redeclaration>,
}

impl SemanticBuilder {
    pub fn new() -> (r: SemanticBuilder)
        ensures
            r@ == BuilderView::initial(),
            r@.wf(),
    {
        let mut stack = Vec::new();
        stack.push(ScopeId(0));
        let r = SemanticBuilder {
            symbols: SymbolTable::new(),
            scopes: ScopeTree::new(),
            stack,
            diagnostics: Vec::new(),
        };
        assert(r@.stack =~= seq![ScopeId(0)]);
        assert(r@.diagnostics =~= seq![]);
        r
    }

    fn current_scope(&self) -> (r: ScopeId)
        requires
            self@.wf(),
        ensures
            r.0 == self@.current(),
            r.0 < self@.scopes.len(),
    {
        self.stack[self.stack.len() - 1]
    }

    /// Opens a child scope of the current one.
    pub fn enter_scope(&mut self, kind: ScopeKind) -> (r: ScopeId)
        requires
            old(self)@.wf(),
            old(self)@.scopes.len() < u32::MAX,
        ensures
            r.0 == old(self)@.scopes.len(),
            final(self)@ == old(self)@.enter_scope(kind),
            final(self)@.wf(),
    {
        let current = self.current_scope();
        let id = self.scopes.push_scope(current, kind);
        self.stack.push(id);
        let ghost v = self@;
        assert(v == old(self)@.enter_scope(kind));
        assert forall|s: int, i: int|
            0 <= s < v.scopes.len() && 0 <= i < v.scopes.bindings[s].len() implies (
            #[trigger] v.scopes.bindings[s][i]).1.0 < v.symbols.len() by {
            assert(v.scopes.bindings[s][i] == old(self)@.scopes.bindings[s][i]);
        }
        assert forall|i: int| 0 <= i < v.stack.len() implies (#[trigger] v.stack[i]).0
            < v.scopes.len() by {
            if i < old(self)@.stack.len() {
                assert(v.stack[i] == old(self)@.stack[i]);
            }
        }
        id
    }

    /// Closes the current scope; at the root it does nothing.
    pub fn leave_scope(&mut self)
        requires
            old(self)@.wf(),
        ensures
            final(self)@ == old(self)@.leave_scope(),
            final(self)@.wf(),
    {
        if self.stack.len() > 1 {
            self.stack.pop();
            assert(self@.stack =~= old(self)@.stack.drop_last());
            assert(self@ == old(self)@.leave_scope());
            let ghost v = self@;
            assert forall|i: int| 0 <= i < v.stack.len() implies (#[trigger] v.stack[i]).0
                < v.scopes.len() by {
                assert(v.stack[i] == old(self)@.stack[i]);
            }
        }
    }

    /// Creates the symbol of a declaration in its declaration scope, binds the name there, and
    /// records a diagnostic where that scope already bound the name to a conflicting symbol.
    pub fn declare(
        &mut self,
        span: Span,
        name: String,
        kind: DeclarationKind,
        exported: bool,
    ) -> (r: SymbolId)
        requires
            old(self)@.wf(),
            old(self)@.symbols.len() < u32::MAX,
        ensures
            r.0 == old(self)@.symbols.len(),
            final(self)@ == old(self)@.declare(span, name@, kind, exported),
            final(self)@.wf(),
    {
        let ghost v0 = self@;
        let flags = flags_for(kind, exported);
        let current = self.current_scope();
        let target = if flags.is_function_scoped_declaration() {
            self.scopes.hoisting_target(current)
        } else {
            current
        };
        assert(target.0 == v0.declaration_scope(flags.bits));
        proof {
            lemma_binding_bound(v0, target.0 as int, name@);
        }
        let existing = self.scopes.get_binding(target, &name);
        let id = self.symbols.create_symbol(span, name.clone(), flags, target);
        if let Some(e) = existing {
            let previous = self.symbols.get_flag(e);
            if flags.conflicts_with(previous) {
                let previous_span = self.symbols.get_span(e);
                self.diagnostics.push(Redeclaration { name: name.clone(), span, previous_span });
            }
        }
        self.scopes.declare_binding(target, name, id);
        let ghost v = self@;
        let ghost goal = v0.declare(span, name@, kind, exported);
        assert(v.diagnostics =~= goal.diagnostics);
        assert(v == goal);
        assert forall|s: int, i: int|
            0 <= s < v.scopes.len() && 0 <= i < v.scopes.bindings[s].len() implies (
            #[trigger] v.scopes.bindings[s][i]).1.0 < v.symbols.len() by {
            if s != target.0 || i < v0.scopes.bindings[s].len() {
                assert(v.scopes.bindings[s][i] == v0.scopes.bindings[s][i]);
            }
        }
        id
    }

    /// Creates the reference of an identifier use and resolves it from the current scope.
    pub fn reference(&mut self, span: Span, name: String) -> (r: ReferenceId)
        requires
            old(self)@.wf(),
            old(self)@.symbols.reference_count() < u32::MAX,
        ensures
            r.0 == old(self)@.symbols.reference_count(),
            final(self)@ == old(self)@.reference(name@),
            final(self)@.wf(),
    {
        let ghost v0 = self@;
        let current = self.current_scope();
        let resolved = self.scopes.resolve_binding(current, &name);
        proof {
            lemma_resolve_bound(v0, current.0 as int, name@);
        }
        let id = self.symbols.create_reference(span, name);
        if let Some(s) = resolved {
            self.symbols.resolve_reference(id, s);
        }
        id
    }

    /// Takes one step of the walk.
    pub fn visit(&mut self, event: &TraversalEvent)
        requires
            old(self)@.wf(),
            old(self)@.scopes.len() < u32::MAX,
            old(self)@.symbols.len() < u32::MAX,
            old(self)@.symbols.reference_count() < u32::MAX,
        ensures
            final(self)@ == old(self)@.step(*event),
            final(self)@.wf(),
    {
        match event {
            TraversalEvent::EnterScope(kind) => {
                self.enter_scope(*kind);
            },
            TraversalEvent::LeaveScope => {
                self.leave_scope();
            },
            TraversalEvent::Declaration { span, name, kind, exported } => {
                self.declare(*span, name.clone(), *kind, *exported);
            },
            TraversalEvent::IdentifierReference { span, name } => {
                self.reference(*span, name.clone());
            },
        }
    }

    /// Hands out what was built.
    pub fn finish(self) -> (r: SemanticResult)
        ensures
            r.symbols@ == self@.symbols,
            r.scopes@ == self@.scopes,
            self@.wf() ==> r.symbols@.wf() && r.scopes@.wf(),
            diagnostics_view(r.diagnostics@) == self@.diagnostics,
    {
        SemanticResult { symbols: self.symbols, scopes: self.scopes, diagnostics: self.diagnostics }
    }
}

/// Builds the symbol table, scope tree and diagnostics of a walk, one event at a time.
pub fn build(events: &Vec<TraversalEvent>) -> (r: SemanticResult)
    requires
        events@.len() < u32::MAX,
    ensures
        r.symbols@ == run(events@).symbols,
        r.symbols@.wf(),
        r.scopes@ == run(events@).scopes,
        r.scopes@.wf(),
        diagnostics_view(r.diagnostics@) == run(events@).diagnostics,
{
    let mut builder = SemanticBuilder::new();
    let mut k: usize = 0;
    assert(events@.subrange(0, 0) =~= seq![]);
    while k < events.len()
        invariant
            k <= events@.len() < u32::MAX,
            builder@ == run(events@.subrange(0, k as int)),
            builder@.wf(),
            builder@.scopes.len() <= k + 1,
            builder@.symbols.len() <= k,
            builder@.symbols.reference_count() <= k,
        decreases events@.len() - k,
    {
        builder.visit(&events[k]);
        assert(events@.subrange(0, k + 1).drop_last() =~= events@.subrange(0, k as int));
        k = k + 1;
    }
    assert(events@.subrange(0, k as int) =~= events@);
    builder.finish()
}

/// A declaration's symbol gets, as its scope, the scope its name is bound in: the nearest
/// function scope (or the root) for a function-scoped declaration, the current scope for any
/// other.
pub proof fn lemma_declaration_scope(
    v: BuilderView,
    span: Span,
    name: Seq<char>,
    kind: DeclarationKind,
    exported: bool,
)
    requires
        v.wf(),
    ensures
        ({
            let w = v.declare(span, name, kind, exported);
            let target = v.declaration_scope(declaration_bits(kind, exported));
            &&& 0 <= target < v.scopes.len()
            &&& w.symbols.scope_ids[v.symbols.len() as int].0 == target
            &&& w.scopes.binding(target, name) == Some(SymbolId(v.symbols.len() as u32))
        }),
{
    lemma_hoist_target_bound(v.scopes, v.current());
    let target = v.declaration_scope(declaration_bits(kind, exported));
    let w = v.declare(span, name, kind, exported);
    crate::scope::lemma_binding_after_declare(
        v.scopes.bindings[target],
        name,
        SymbolId(v.symbols.len() as u32),
        name,
    );
}

/// No step of the walk changes the span, name, flags or scope of a symbol already made, nor
/// takes a symbol away.
pub proof fn lemma_step_keeps_symbols(v: BuilderView, event: TraversalEvent)
    ensures
        ({
            let w = v.step(event);
            &&& w.symbols.len() >= v.symbols.len()
            &&& w.symbols.scope_ids.len() >= v.symbols.scope_ids.len()
            &&& w.symbols.names.len() >= v.symbols.names.len()
            &&& w.symbols.flags.len() >= v.symbols.flags.len()
            &&& forall|i: int|
                0 <= i < v.symbols.scope_ids.len() ==> #[trigger] w.symbols.scope_ids[i]
                    == v.symbols.scope_ids[i]
            &&& forall|i: int|
                0 <= i < v.symbols.names.len() ==> #[trigger] w.symbols.names[i]
                    == v.symbols.names[i]
            &&& forall|i: int|
                0 <= i < v.symbols.flags.len() ==> #[trigger] w.symbols.flags[i]
                    == v.symbols.flags[i]
            &&& forall|i: int|
                0 <= i < v.symbols.len() ==> #[trigger] w.symbols.spans[i] == v.symbols.spans[i]
        }),
{
}

/// A use that is left global has no binding of its name in its own scope nor in any scope
/// that encloses it.
pub proof fn lemma_global_reference_unbound(v: BuilderView, name: Seq<char>, a: int)
    requires
        v.wf(),
        v.scopes.is_ancestor(a, v.current()),
    ensures
        v.reference(name).symbols.reference_symbols[v.symbols.reference_count() as int] is None
            ==> v.reference(name).scopes.binding(a, name) is None,
{
    let r = v.symbols.reference_count() as int;
    if v.scopes.resolve(v.current(), name) is None {
        crate::scope::lemma_unresolved_has_no_binding(v.scopes, v.current(), a, name);
    } else {
        assert(v.reference(name).symbols.reference_symbols[r] is Some);
    }
}

/// Over a whole walk: the symbol that the `k`-th event declares keeps, in the finished table,
/// the scope that its name was bound in at that point (the nearest function scope or the root
/// for a function-scoped declaration, the current scope for any other).
pub proof fn lemma_walk_symbol_scopes(events: Seq<TraversalEvent>, k: int)
    requires
        events.len() < u32::MAX,
        0 <= k < events.len(),
        events[k] is Declaration,
    ensures
        ({
            let before = run(events.take(k));
            let bits = declaration_bits(events[k]->Declaration_kind, events[k]->Declaration_exported);
            &&& before.symbols.len() < run(events).symbols.len()
            &&& run(events).symbols.scope_ids[before.symbols.len() as int].0
                == before.declaration_scope(bits)
        }),
    decreases events.len(),
{
    let before = run(events.take(k));
    if events.len() == k + 1 {
        assert(events.drop_last() =~= events.take(k));
        lemma_run_wf(events.take(k));
        lemma_hoist_target_bound(before.scopes, before.current());
    } else {
        let d = events.drop_last();
        assert(d.take(k) =~= events.take(k));
        assert(d[k] == events[k]);
        lemma_walk_symbol_scopes(d, k);
        lemma_run_wf(d);
        lemma_step_keeps_symbols(run(d), events.last());
    }
}

/// Every step of the walk keeps the builder's state well formed, while the ids still fit.
pub proof fn lemma_step_wf(v: BuilderView, event: TraversalEvent)
    requires
        v.wf(),
        v.scopes.len() < u32::MAX,
        v.symbols.len() < u32::MAX,
        v.symbols.reference_count() < u32::MAX,
    ensures
        v.step(event).wf(),
{
    let w = v.step(event);
    match event {
        TraversalEvent::EnterScope(kind) => {
            assert forall|s: int, i: int|
                0 <= s < w.scopes.len() && 0 <= i < w.scopes.bindings[s].len() implies (
                #[trigger] w.scopes.bindings[s][i]).1.0 < w.symbols.len() by {
                assert(w.scopes.bindings[s][i] == v.scopes.bindings[s][i]);
            }
            assert forall|i: int| 0 <= i < w.stack.len() implies (#[trigger] w.stack[i]).0
                < w.scopes.len() by {
                if i < v.stack.len() {
                    assert(w.stack[i] == v.stack[i]);
                }
            }
        },
        TraversalEvent::LeaveScope => {
            assert forall|i: int| 0 <= i < w.stack.len() implies (#[trigger] w.stack[i]).0
                < w.scopes.len() by {
                assert(w.stack[i] == v.stack[i]);
            }
        },
        TraversalEvent::Declaration { span, name, kind, exported } => {
            let bits = declaration_bits(kind, exported);
            let target = v.declaration_scope(bits);
            lemma_hoist_target_bound(v.scopes, v.current());
            v.symbols.lemma_add_symbol_wf(span, name@, SymbolFlags { bits }, ScopeId(target as u32));
            assert forall|s: int, i: int|
                0 <= s < w.scopes.len() && 0 <= i < w.scopes.bindings[s].len() implies (
                #[trigger] w.scopes.bindings[s][i]).1.0 < w.symbols.len() by {
                if s != target || i < v.scopes.bindings[s].len() {
                    assert(w.scopes.bindings[s][i] == v.scopes.bindings[s][i]);
                }
            }
        },
        TraversalEvent::IdentifierReference { span, name } => {
            let id = ReferenceId(v.symbols.reference_count() as u32);
            let added = v.symbols.add_reference(name@);
            v.symbols.lemma_add_reference_wf(name@);
            lemma_resolve_bound(v, v.current(), name@);
            if let Some(s) = v.scopes.resolve(v.current(), name@) {
                added.lemma_resolve_wf(id, s);
            }
        },
    }
}

/// The state after any walk whose ids fit is well formed.
pub proof fn lemma_run_wf(events: Seq<TraversalEvent>)
    requires
        events.len() < u32::MAX,
    ensures
        run(events).wf(),
        run(events).scopes.len() <= events.len() + 1,
        run(events).symbols.len() <= events.len(),
        run(events).symbols.reference_count() <= events.len(),
    decreases events.len(),
{
    if events.len() == 0 {
        let v = run(events);
        assert(v.stack =~= seq![ScopeId(0)]);
        assert(v.scopes.bindings[0] =~= seq![]);
    } else {
        let d = events.drop_last();
        lemma_run_wf(d);
        lemma_step_wf(run(d), events.last());
    }
}

/// Over a whole walk: a reference that resolved stands exactly once in the list of its symbol,
/// and that list holds its references in source order.
pub proof fn lemma_walk_reference_listed_once(events: Seq<TraversalEvent>, r: int)
    requires
        events.len() < u32::MAX,
        0 <= r < run(events).symbols.reference_count(),
        run(events).symbols.reference_symbols[r] is Some,
    ensures
        ({
            let t = run(events).symbols;
            let l = t.resolved_references[t.reference_symbols[r]->Some_0.0 as int];
            &&& strictly_increasing(l)
            &&& exists|i: int|
                0 <= i < l.len() && l[i] == ReferenceId(r as u32) && forall|j: int|
                    0 <= j < l.len() && #[trigger] l[j] == ReferenceId(r as u32) ==> j == i
        }),
{
    lemma_run_wf(events);
    lemma_resolved_reference_listed_once(run(events).symbols, r);
}

/// No step of the walk changes what a reference already made resolved to, nor takes one away.
pub proof fn lemma_step_keeps_references(v: BuilderView, event: TraversalEvent)
    requires
        v.wf(),
    ensures
        ({
            let w = v.step(event);
            &&& w.symbols.reference_count() >= v.symbols.reference_count()
            &&& forall|i: int|
                0 <= i < v.symbols.reference_count() ==> #[trigger] w.symbols.reference_symbols[i]
                    == v.symbols.reference_symbols[i]
        }),
{
}

/// Over a whole walk: a use that is global in the finished table had, at its point in the walk,
/// no binding of its name in its own scope nor in any scope that enclosed it.
pub proof fn lemma_walk_global_reference_unbound(events: Seq<TraversalEvent>, k: int, a: int)
    requires
        events.len() < u32::MAX,
        0 <= k < events.len(),
        events[k] is IdentifierReference,
        run(events.take(k)).scopes.is_ancestor(a, run(events.take(k)).current()),
    ensures
        ({
            let before = run(events.take(k));
            let id = before.symbols.reference_count() as int;
            &&& id < run(events).symbols.reference_count()
            &&& run(events).symbols.reference_symbols[id] is None ==> before.scopes.binding(
                a,
                events[k]->IdentifierReference_name@,
            ) is None
        }),
    decreases events.len(),
{
    let before = run(events.take(k));
    lemma_run_wf(events.take(k));
    if events.len() == k + 1 {
        assert(events.drop_last() =~= events.take(k));
        lemma_global_reference_unbound(before, events[k]->IdentifierReference_name@, a);
    } else {
        let d = events.drop_last();
        assert(d.take(k) =~= events.take(k));
        assert(d[k] == events[k]);
        lemma_walk_global_reference_unbound(d, k, a);
        lemma_run_wf(d);
        lemma_step_keeps_references(run(d), events.last());
    }
}

/// Two events that carry the same kinds, spans and names.
pub open spec fn same_event(a: TraversalEvent, b: TraversalEvent) -> bool {
    match (a, b) {
        (TraversalEvent::EnterScope(x), TraversalEvent::EnterScope(y)) => x == y,
        (TraversalEvent::LeaveScope, TraversalEvent::LeaveScope) => true,
        (
            TraversalEvent::Declaration { span: s1, name: n1, kind: k1, exported: e1 },
            TraversalEvent::Declaration { span: s2, name: n2, kind: k2, exported: e2 },
        ) => s1 == s2 && n1@ == n2@ && k1 == k2 && e1 == e2,
        (
            TraversalEvent::IdentifierReference { span: s1, name: n1 },
            TraversalEvent::IdentifierReference { span: s2, name: n2 },
        ) => s1 == s2 && n1@ == n2@,
        _ => false,
    }
}

/// Two walks of the same tree build the same symbols, references, scopes, resolutions and
/// diagnostics, ids included.
pub proof fn lemma_run_deterministic(a: Seq<TraversalEvent>, b: Seq<TraversalEvent>)
    requires
        a.len() == b.len(),
        forall|i: int| 0 <= i < a.len() ==> same_event(#[trigger] a[i], b[i]),
    ensures
        run(a) == run(b),
    decreases a.len(),
{
    if a.len() > 0 {
        let (da, db) = (a.drop_last(), b.drop_last());
        assert forall|i: int| 0 <= i < da.len() implies same_event(#[trigger] da[i], db[i]) by {
            assert(da[i] == a[i] && db[i] == b[i]);
        }
        lemma_run_deterministic(da, db);
        assert(same_event(a[a.len() - 1], b[b.len() - 1]));
    }
}

} // verus!
