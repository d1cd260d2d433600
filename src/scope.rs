use vstd::prelude::*;

use crate::ids::{ScopeId, SymbolId};

verus! {

/// Function scopes (and the root) receive the function-scoped bindings of the blocks nested in
/// them; block scopes hold only their own bindings.
#[derive(Clone, Copy, Debug, PartialEq, Eq, Structural, Hash)]
pub enum ScopeKind {
    Function,
    Block,
}

/// A name bound in a scope, and the symbol it stands for.
pub struct Binding {
    pub name: String,
    pub symbol_id: SymbolId,
}

/// The symbol that a scope's bindings give to `name`: the latest binding of it, if any.
pub open spec fn binding_in(bindings: Seq<(Seq<char>, SymbolId)>, name: Seq<char>) -> Option<
    SymbolId,
>
    decreases bindings.len(),
{
    if bindings.len() == 0 {
        None
    } else if bindings.last().0 == name {
        Some(bindings.last().1)
    } else {
        binding_in(bindings.drop_last(), name)
    }
}

/// The mathematical content of a scope tree: for each scope its parent, kind and bindings.
pub struct ScopeTreeView {
    pub parents: Seq<Option<ScopeId>>,
    pub kinds: Seq<ScopeKind>,
    pub bindings: Seq<Seq<(Seq<char>, SymbolId)>>,
}

impl ScopeTreeView {
    pub open spec fn len(self) -> nat {
        self.parents.len()
    }

    /// One root, scope 0; every other scope's parent was created before it.
    pub open spec fn wf(self) -> bool {
        &&& self.kinds.len() == self.len()
        &&& self.bindings.len() == self.len()
        &&& 1 <= self.len() <= u32::MAX
        &&& self.parents[0] is None
        &&& forall|s: int|
            0 < s < self.len() ==> (#[trigger] self.parents[s]) is Some && self.parents[s]->Some_0.0
                < s
    }

    /// The symbol bound to `name` directly in `scope`.
    pub open spec fn binding(self, scope: int, name: Seq<char>) -> Option<SymbolId> {
        binding_in(self.bindings[scope], name)
    }

    /// The first symbol bound to `name` on the way from `scope` up to the root.
    pub open spec fn resolve(self, scope: int, name: Seq<char>) -> Option<SymbolId>
        decreases scope,
    {
        if scope < 0 {
            None
        } else if self.binding(scope, name) is Some {
            self.binding(scope, name)
        } else {
            match self.parents[scope] {
                Some(p) => if p.0 < scope {
                    self.resolve(p.0 as int, name)
                } else {
                    None
                },
                None => None,
            }
        }
    }

    /// The scope that receives a function-scoped binding declared in `scope`: the nearest
    /// function scope, or the root.
    pub open spec fn hoist_target(self, scope: int) -> int
        decreases scope,
    {
        if scope < 0 || self.kinds[scope] == ScopeKind::Function {
            scope
        } else {
            match self.parents[scope] {
                Some(p) => if p.0 < scope {
                    self.hoist_target(p.0 as int)
                } else {
                    scope
                },
                None => scope,
            }
        }
    }

    /// Whether `a` is `scope` or one of the scopes that enclose it.
    pub open spec fn is_ancestor(self, a: int, scope: int) -> bool
        decreases scope,
    {
        if scope < 0 {
            false
        } else if a == scope {
            true
        } else {
            match self.parents[scope] {
                Some(p) => p.0 < scope && self.is_ancestor(a, p.0 as int),
                None => false,
            }
        }
    }

    pub open spec fn root() -> ScopeTreeView {
        ScopeTreeView {
            parents: seq![None],
            kinds: seq![ScopeKind::Function],
            bindings: seq![seq![]],
        }
    }

    pub open spec fn add_scope(self, parent: ScopeId, kind: ScopeKind) -> ScopeTreeView {
        ScopeTreeView {
            parents: self.parents.push(Some(parent)),
            kinds: self.kinds.push(kind),
            bindings: self.bindings.push(seq![]),
        }
    }

    pub open spec fn add_binding(self, scope: int, name: Seq<char>, symbol_id: SymbolId) -> ScopeTreeView {
        ScopeTreeView {
            bindings: self.bindings.update(scope, self.bindings[scope].push((name, symbol_id))),
            ..self
        }
    }
}

/// A binding declared after another of the same name replaces it.
pub proof fn lemma_binding_after_declare(b: Seq<(Seq<char>, SymbolId)>, name: Seq<char>, symbol_id: SymbolId, other: Seq<char>)
    ensures
        binding_in(b.push((name, symbol_id)), other) == if other == name {
            Some(symbol_id)
        } else {
            binding_in(b, other)
        },
{
    assert(b.push((name, symbol_id)).drop_last() =~= b);
}

/// When nothing on the way from `scope` to the root binds `name`, no scope that encloses
/// `scope` binds it.
pub proof fn lemma_unresolved_has_no_binding(t: ScopeTreeView, scope: int, a: int, name: Seq<char>)
    requires
        t.wf(),
        0 <= scope < t.len(),
        t.resolve(scope, name) is None,
        t.is_ancestor(a, scope),
    ensures
        t.binding(a, name) is None,
    decreases scope,
{
    if a != scope {
        let p = t.parents[scope]->Some_0.0 as int;
        lemma_unresolved_has_no_binding(t, p, a, name);
    }
}

/// The tree of lexical scopes, with the bindings declared directly in each.
pub struct ScopeTree {
    parent_ids: Vec<Option<ScopeId>>,
    kinds: Vec<ScopeKind>,
    bindings: Vec<Vec<Binding>>,
}

impl View for ScopeTree {
    type V = ScopeTreeView;

    closed spec fn view(&self) -> ScopeTreeView {
        ScopeTreeView {
            parents: self.parent_ids@,
            kinds: self.kinds@,
            bindings: self.bindings@.map_values(
                |v: Vec<Binding>| v@.map_values(|b: Binding| (b.name@, b.symbol_id)),
            ),
        }
    }
}

impl ScopeTree {
    /// A tree that holds only the root scope, a function scope with no bindings.
    pub fn new() -> (r: ScopeTree)
        ensures
            r@ == ScopeTreeView::root(),
            r@.wf(),
    {
        let mut parent_ids = Vec::new();
        parent_ids.push(None);
        let mut kinds = Vec::new();
        kinds.push(ScopeKind::Function);
        let mut bindings = Vec::new();
        bindings.push(Vec::new());
        let r = ScopeTree { parent_ids, kinds, bindings };
        assert(r@.parents =~= seq![None]);
        assert(r@.kinds =~= seq![ScopeKind::Function]);
        assert(r@.bindings[0] =~= seq![]);
        assert(r@.bindings =~= seq![seq![]]);
        r
    }

    pub fn root_scope_id(&self) -> (r: ScopeId)
        ensures
            r.0 == 0,
    {
        ScopeId(0)
    }

    /// The number of scopes.
    pub fn len(&self) -> (r: usize)
        ensures
            r == self@.len(),
    {
        self.parent_ids.len()
    }

    pub fn get_parent_id(&self, scope_id: ScopeId) -> (r: Option<ScopeId>)
        requires
            self@.wf(),
            scope_id.0 < self@.len(),
        ensures
            r == self@.parents[scope_id.0 as int],
    {
        self.parent_ids[scope_id.0 as usize]
    }

    pub fn get_kind(&self, scope_id: ScopeId) -> (r: ScopeKind)
        requires
            self@.wf(),
            scope_id.0 < self@.len(),
        ensures
            r == self@.kinds[scope_id.0 as int],
    {
        self.kinds[scope_id.0 as usize]
    }

    /// Creates a child scope of `parent` and returns its id.
    pub fn push_scope(&mut self, parent: ScopeId, kind: ScopeKind) -> (r: ScopeId)
        requires
            old(self)@.wf(),
            parent.0 < old(self)@.len(),
            old(self)@.len() < u32::MAX,
        ensures
            r.0 == old(self)@.len(),
            final(self)@ == old(self)@.add_scope(parent, kind),
            final(self)@.wf(),
    {
        let id = self.parent_ids.len() as u32;
        self.parent_ids.push(Some(parent));
        self.kinds.push(kind);
        self.bindings.push(Vec::new());
        assert(self@.bindings[id as int] =~= seq![]);
        assert(self@.bindings =~= old(self)@.bindings.push(seq![]));
        ScopeId(id)
    }

    /// Records that `name` stands for `symbol_id` in the scope itself.
    pub fn declare_binding(&mut self, scope_id: ScopeId, name: String, symbol_id: SymbolId)
        requires
            old(self)@.wf(),
            scope_id.0 < old(self)@.len(),
        ensures
            final(self)@ == old(self)@.add_binding(scope_id.0 as int, name@, symbol_id),
            final(self)@.wf(),
    {
        let ghost name_view = name@;
        let s = scope_id.0 as usize;
        self.bindings[s].push(Binding { name, symbol_id });
        assert(self@.bindings[s as int] =~= old(self)@.bindings[s as int].push((name_view, symbol_id)));
        assert(self@.bindings =~= old(self)@.bindings.update(
            s as int,
            old(self)@.bindings[s as int].push((name_view, symbol_id)),
        ));
    }

    /// The symbol bound to `name` directly in the scope.
    pub fn get_binding(&self, scope_id: ScopeId, name: &String) -> (r: Option<SymbolId>)
        requires
            self@.wf(),
            scope_id.0 < self@.len(),
        ensures
            r == self@.binding(scope_id.0 as int, name@),
    {
        let s = scope_id.0 as usize;
        let ghost all = self@.bindings[s as int];
        let mut i: usize = self.bindings[s].len();
        assert(all.subrange(0, i as int) =~= all);
        while i > 0
            invariant
                s == scope_id.0,
                s < self@.len(),
                self@.wf(),
                all == self@.bindings[s as int],
                all.len() == self.bindings@[s as int]@.len(),
                i <= all.len(),
                binding_in(all, name@) == binding_in(all.subrange(0, i as int), name@),
            decreases i,
        {
            let ghost pre = all.subrange(0, i as int);
            assert(pre.drop_last() =~= all.subrange(0, i - 1));
            let b = &self.bindings[s][i - 1];
            assert(pre.last() == (b.name@, b.symbol_id));
            if b.name == *name {
                return Some(b.symbol_id);
            }
            i = i - 1;
        }
        assert(all.subrange(0, 0) =~= seq![]);
        None
    }

    /// The first symbol bound to `name` on the way from the scope up to the root.
    pub fn resolve_binding(&self, scope_id: ScopeId, name: &String) -> (r: Option<SymbolId>)
        requires
            self@.wf(),
            scope_id.0 < self@.len(),
        ensures
            r == self@.resolve(scope_id.0 as int, name@),
    {
        let mut current = scope_id;
        loop
            invariant
                self@.wf(),
                current.0 < self@.len(),
                self@.resolve(scope_id.0 as int, name@) == self@.resolve(current.0 as int, name@),
            decreases current.0,
        {
            let found = self.get_binding(current, name);
            if found.is_some() {
                return found;
            }
            match self.parent_ids[current.0 as usize] {
                Some(p) => {
                    current = p;
                },
                None => {
                    return None;
                },
            }
        }
    }

    /// The scope that a function-scoped binding declared in `scope_id` goes to: the nearest
    /// function scope, or the root.
    pub fn hoisting_target(&self, scope_id: ScopeId) -> (r: ScopeId)
        requires
            self@.wf(),
            scope_id.0 < self@.len(),
        ensures
            r.0 == self@.hoist_target(scope_id.0 as int),
            r.0 < self@.len(),
    {
        let mut current = scope_id;
        loop
            invariant
                self@.wf(),
                current.0 < self@.len(),
                self@.hoist_target(scope_id.0 as int) == self@.hoist_target(current.0 as int),
            decreases current.0,
        {
            if self.kinds[current.0 as usize] == ScopeKind::Function {
                return current;
            }
            match self.parent_ids[current.0 as usize] {
                Some(p) => {
                    current = p;
                },
                None => {
                    return current;
                },
            }
        }
    }
}

} // verus!
