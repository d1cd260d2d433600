use vstd::prelude::*;

use crate::flags::SymbolFlags;
use crate::ids::{ReferenceId, ScopeId, Span, SymbolId};

verus! {

/// An identifier occurrence that is a use, not a declaration.
pub struct Reference {
    pub name: String,
    /// The symbol it resolved to; `None` for a global reference.
    pub symbol_id: Option<SymbolId>,
}

impl Reference {
    pub fn new(name: String) -> (r: Reference)
        ensures
            r.name@ == name@,
            r.symbol_id is None,
    {
        Reference { name, symbol_id: None }
    }
}

/// `r` inserted into `list`, a list of references kept in increasing order of id.
pub open spec fn insert_sorted(list: Seq<ReferenceId>, r: ReferenceId) -> Seq<ReferenceId>
    decreases list.len(),
{
    if list.len() == 0 {
        seq![r]
    } else if list.last().0 < r.0 {
        list.push(r)
    } else {
        insert_sorted(list.drop_last(), r).push(list.last())
    }
}

pub open spec fn strictly_increasing(list: Seq<ReferenceId>) -> bool {
    forall|i: int, j: int| 0 <= i < j < list.len() ==> #[trigger] list[i].0 < #[trigger] list[j].0
}

/// The mathematical content of a symbol table: one entry per symbol in each of the first five
/// sequences, one entry per reference in the last two.
pub struct SymbolTableView {
    pub spans: Seq<Span>,
    pub names: Seq<Seq<char>>,
    pub flags: Seq<SymbolFlags>,
    pub scope_ids: Seq<ScopeId>,
    pub resolved_references: Seq<Seq<ReferenceId>>,
    pub reference_names: Seq<Seq<char>>,
    pub reference_symbols: Seq<Option<SymbolId>>,
}

impl SymbolTableView {
    /// The number of symbols.
    pub open spec fn len(self) -> nat {
        self.spans.len()
    }

    pub open spec fn reference_count(self) -> nat {
        self.reference_names.len()
    }

    /// Every resolved reference is listed under its symbol.
    pub open spec fn references_listed(self) -> bool {
        forall|r: int|
            0 <= r < self.reference_count() && (#[trigger] self.reference_symbols[r]) is Some ==> {
                let s = self.reference_symbols[r]->Some_0.0 as int;
                &&& 0 <= s < self.len()
                &&& self.resolved_references[s].contains(ReferenceId(r as u32))
            }
    }

    /// Every listed reference resolved to the symbol it is listed under, and each list is in
    /// increasing order of reference id, which is the order of creation.
    pub open spec fn lists_resolved(self) -> bool {
        forall|s: int|
            0 <= s < self.len() ==> {
                &&& strictly_increasing(#[trigger] self.resolved_references[s])
                &&& forall|i: int|
                    0 <= i < self.resolved_references[s].len() ==> {
                        let r = #[trigger] self.resolved_references[s][i];
                        &&& r.0 < self.reference_count()
                        &&& self.reference_symbols[r.0 as int] == Some(SymbolId(s as u32))
                    }
            }
    }

    pub open spec fn wf(self) -> bool {
        &&& self.names.len() == self.len()
        &&& self.flags.len() == self.len()
        &&& self.scope_ids.len() == self.len()
        &&& self.resolved_references.len() == self.len()
        &&& self.reference_symbols.len() == self.reference_count()
        &&& self.len() <= u32::MAX
        &&& self.reference_count() <= u32::MAX
        &&& self.references_listed()
        &&& self.lists_resolved()
    }

    pub open spec fn empty() -> SymbolTableView {
        SymbolTableView {
            spans: seq![],
            names: seq![],
            flags: seq![],
            scope_ids: seq![],
            resolved_references: seq![],
            reference_names: seq![],
            reference_symbols: seq![],
        }
    }

    /// The table with one more symbol, which no reference resolves to yet.
    pub open spec fn add_symbol(
        self,
        span: Span,
        name: Seq<char>,
        flags: SymbolFlags,
        scope_id: ScopeId,
    ) -> SymbolTableView {
        SymbolTableView {
            spans: self.spans.push(span),
            names: self.names.push(name),
            flags: self.flags.push(flags),
            scope_ids: self.scope_ids.push(scope_id),
            resolved_references: self.resolved_references.push(seq![]),
            ..self
        }
    }

    /// The table with one more reference, resolved to nothing.
    pub open spec fn add_reference(self, name: Seq<char>) -> SymbolTableView {
        SymbolTableView {
            reference_names: self.reference_names.push(name),
            reference_symbols: self.reference_symbols.push(None),
            ..self
        }
    }

    /// The table with reference `r` resolved to symbol `s`.
    pub open spec fn resolve(self, r: ReferenceId, s: SymbolId) -> SymbolTableView {
        SymbolTableView {
            reference_symbols: self.reference_symbols.update(r.0 as int, Some(s)),
            resolved_references: self.resolved_references.update(
                s.0 as int,
                insert_sorted(self.resolved_references[s.0 as int], r),
            ),
            ..self
        }
    }

    /// Adding a symbol keeps a table well formed.
    pub proof fn lemma_add_symbol_wf(self, span: Span, name: Seq<char>, flags: SymbolFlags, scope_id: ScopeId)
        requires
            self.wf(),
            self.len() < u32::MAX,
        ensures
            self.add_symbol(span, name, flags, scope_id).wf(),
    {
        let v = self.add_symbol(span, name, flags, scope_id);
        assert(v.resolved_references[v.len() - 1] =~= seq![]);
        assert(v.references_listed()) by {
            assert forall|r: int|
                0 <= r < v.reference_count() && (#[trigger] v.reference_symbols[r]) is Some implies {
                let s = v.reference_symbols[r]->Some_0.0 as int;
                &&& 0 <= s < v.len()
                &&& v.resolved_references[s].contains(ReferenceId(r as u32))
            } by {
                assert(self.reference_symbols[r] == v.reference_symbols[r]);
                let s = v.reference_symbols[r]->Some_0.0 as int;
                assert(self.resolved_references[s] == v.resolved_references[s]);
            }
        }
        assert(v.lists_resolved()) by {
            assert forall|s: int| 0 <= s < v.len() implies {
                &&& strictly_increasing(#[trigger] v.resolved_references[s])
                &&& forall|i: int|
                    0 <= i < v.resolved_references[s].len() ==> {
                        let r = #[trigger] v.resolved_references[s][i];
                        &&& r.0 < v.reference_count()
                        &&& v.reference_symbols[r.0 as int] == Some(SymbolId(s as u32))
                    }
            } by {
                if s < self.len() {
                    assert(self.resolved_references[s] == v.resolved_references[s]);
                }
            }
        }
    }

    /// Adding a reference keeps a table well formed.
    pub proof fn lemma_add_reference_wf(self, name: Seq<char>)
        requires
            self.wf(),
            self.reference_count() < u32::MAX,
        ensures
            self.add_reference(name).wf(),
    {
        let v = self.add_reference(name);
        assert(v.references_listed()) by {
            assert forall|r: int|
                0 <= r < v.reference_count() && (#[trigger] v.reference_symbols[r]) is Some implies {
                let s = v.reference_symbols[r]->Some_0.0 as int;
                &&& 0 <= s < v.len()
                &&& v.resolved_references[s].contains(ReferenceId(r as u32))
            } by {
                assert(r < self.reference_count());
                assert(self.reference_symbols[r] == v.reference_symbols[r]);
            }
        }
        assert(v.lists_resolved()) by {
            assert forall|s: int| 0 <= s < v.len() implies {
                &&& strictly_increasing(#[trigger] v.resolved_references[s])
                &&& forall|i: int|
                    0 <= i < v.resolved_references[s].len() ==> {
                        let r = #[trigger] v.resolved_references[s][i];
                        &&& r.0 < v.reference_count()
                        &&& v.reference_symbols[r.0 as int] == Some(SymbolId(s as u32))
                    }
            } by {
                assert forall|i: int| 0 <= i < v.resolved_references[s].len() implies {
                    let r = #[trigger] v.resolved_references[s][i];
                    &&& r.0 < v.reference_count()
                    &&& v.reference_symbols[r.0 as int] == Some(SymbolId(s as u32))
                } by {
                    let r = self.resolved_references[s][i];
                    assert(self.reference_symbols[r.0 as int] == v.reference_symbols[r.0 as int]);
                }
            }
        }
    }

    /// Resolving a global reference keeps a table well formed.
    pub proof fn lemma_resolve_wf(self, r_id: ReferenceId, s_id: SymbolId)
        requires
            self.wf(),
            r_id.0 < self.reference_count(),
            s_id.0 < self.len(),
            self.reference_symbols[r_id.0 as int] is None,
        ensures
            self.resolve(r_id, s_id).wf(),
    {
        let v = self.resolve(r_id, s_id);
        let s = s_id.0 as int;
        let list = self.resolved_references[s];
        assert(!list.contains(r_id)) by {
            if list.contains(r_id) {
                let i = choose|i: int| 0 <= i < list.len() && list[i] == r_id;
                assert(self.resolved_references[s][i] == r_id);
            }
        }
        lemma_insert_sorted(list, r_id);
        assert(v.references_listed()) by {
            assert forall|r: int|
                0 <= r < v.reference_count() && (#[trigger] v.reference_symbols[r]) is Some implies {
                let t = v.reference_symbols[r]->Some_0.0 as int;
                &&& 0 <= t < v.len()
                &&& v.resolved_references[t].contains(ReferenceId(r as u32))
            } by {
                if r == r_id.0 {
                    assert(insert_sorted(list, r_id).contains(r_id));
                } else {
                    assert(self.reference_symbols[r] == v.reference_symbols[r]);
                    let t = v.reference_symbols[r]->Some_0.0 as int;
                    assert(self.resolved_references[t].contains(ReferenceId(r as u32)));
                    if t == s {
                        assert(insert_sorted(list, r_id).contains(ReferenceId(r as u32)));
                    }
                }
            }
        }
        assert(v.lists_resolved()) by {
            assert forall|t: int| 0 <= t < v.len() implies {
                &&& strictly_increasing(#[trigger] v.resolved_references[t])
                &&& forall|i: int|
                    0 <= i < v.resolved_references[t].len() ==> {
                        let r = #[trigger] v.resolved_references[t][i];
                        &&& r.0 < v.reference_count()
                        &&& v.reference_symbols[r.0 as int] == Some(SymbolId(t as u32))
                    }
            } by {
                assert forall|i: int| 0 <= i < v.resolved_references[t].len() implies {
                    let r = #[trigger] v.resolved_references[t][i];
                    &&& r.0 < v.reference_count()
                    &&& v.reference_symbols[r.0 as int] == Some(SymbolId(t as u32))
                } by {
                    let r = v.resolved_references[t][i];
                    if t == s {
                        assert(insert_sorted(list, r_id).contains(r));
                        if r != r_id {
                            let k = choose|k: int| 0 <= k < list.len() && list[k] == r;
                            assert(self.resolved_references[t][k] == r);
                            assert(self.reference_symbols[r.0 as int] == Some(SymbolId(t as u32)));
                        }
                    } else {
                        assert(self.resolved_references[t][i] == r);
                        assert(self.reference_symbols[r.0 as int] == Some(SymbolId(t as u32)));
                        assert(r.0 != r_id.0);
                    }
                }
            }
        }    }
}

/// Symbol table, stored as one array per attribute and indexed by dense ids.
pub struct SymbolTable {
    spans: Vec<Span>,
    names: Vec<String>,
    flags: Vec<SymbolFlags>,
    scope_ids: Vec<ScopeId>,
    resolved_references: Vec<Vec<ReferenceId>>,
    references: Vec<Reference>,
}

impl View for SymbolTable {
    type V = SymbolTableView;

    closed spec fn view(&self) -> SymbolTableView {
        SymbolTableView {
            spans: self.spans@,
            names: self.names@.map_values(|n: String| n@),
            flags: self.flags@,
            scope_ids: self.scope_ids@,
            resolved_references: self.resolved_references@.map_values(|l: Vec<ReferenceId>| l@),
            reference_names: self.references@.map_values(|r: Reference| r.name@),
            reference_symbols: self.references@.map_values(|r: Reference| r.symbol_id),
        }
    }
}

proof fn lemma_insert_sorted(list: Seq<ReferenceId>, r: ReferenceId)
    requires
        strictly_increasing(list),
        !list.contains(r),
    ensures
        strictly_increasing(insert_sorted(list, r)),
        insert_sorted(list, r).len() == list.len() + 1,
        forall|x: ReferenceId| #[trigger]
            insert_sorted(list, r).contains(x) <==> (list.contains(x) || x == r),
    decreases list.len(),
{
    if list.len() == 0 {
        assert(seq![r][0] == r);
        assert(seq![r].contains(r));
    } else if list.last().0 < r.0 {
        let n = list.push(r);
        assert forall|x: ReferenceId| #[trigger] n.contains(x) <==> (list.contains(x) || x == r) by {
            if n.contains(x) {
                let i = choose|i: int| 0 <= i < n.len() && n[i] == x;
                if i < list.len() {
                    assert(list[i] == x);
                }
            }
            if list.contains(x) {
                let i = choose|i: int| 0 <= i < list.len() && list[i] == x;
                assert(n[i] == x);
            }
            if x == r {
                assert(n[list.len() as int] == x);
            }
        }
    } else {
        let d = list.drop_last();
        let l = list.last();
        assert(strictly_increasing(d));
        assert(!d.contains(r)) by {
            if d.contains(r) {
                let i = choose|i: int| 0 <= i < d.len() && d[i] == r;
                assert(list[i] == r);
            }
        }
        lemma_insert_sorted(d, r);
        let m = insert_sorted(d, r);
        let n = m.push(l);
        assert(l.0 > r.0) by {
            if l.0 == r.0 {
                assert(list[list.len() - 1] == r);
            }
        }
        assert forall|i: int, j: int| 0 <= i < j < n.len() implies #[trigger] n[i].0
            < #[trigger] n[j].0 by {
            if j == n.len() - 1 {
                assert(m.contains(m[i]));
                if m[i] != r {
                    let k = choose|k: int| 0 <= k < d.len() && d[k] == m[i];
                    assert(list[k] == m[i]);
                }
            }
        }
        assert forall|x: ReferenceId| #[trigger] n.contains(x) <==> (list.contains(x) || x == r) by {
            if n.contains(x) {
                let i = choose|i: int| 0 <= i < n.len() && n[i] == x;
                if i < m.len() {
                    assert(m.contains(x));
                    if d.contains(x) {
                        let k = choose|k: int| 0 <= k < d.len() && d[k] == x;
                        assert(list[k] == x);
                    }
                } else {
                    assert(list[list.len() - 1] == x);
                }
            }
            if list.contains(x) {
                let i = choose|i: int| 0 <= i < list.len() && list[i] == x;
                if i < d.len() {
                    assert(d[i] == x);
                    assert(m.contains(x));
                    let k = choose|k: int| 0 <= k < m.len() && m[k] == x;
                    assert(n[k] == x);
                } else {
                    assert(n[m.len() as int] == x);
                }
            }
            if x == r {
                assert(m.contains(x));
                let k = choose|k: int| 0 <= k < m.len() && m[k] == x;
                assert(n[k] == x);
            }
        }
    }
}

proof fn lemma_increasing_unique(l: Seq<ReferenceId>, i: int)
    requires
        strictly_increasing(l),
        0 <= i < l.len(),
    ensures
        forall|j: int| 0 <= j < l.len() && #[trigger] l[j] == l[i] ==> j == i,
{
    assert forall|j: int| 0 <= j < l.len() && #[trigger] l[j] == l[i] implies j == i by {
        if j < i {
            assert(l[j].0 < l[i].0);
        } else if i < j {
            assert(l[i].0 < l[j].0);
        }
    }
}

/// In a well-formed table, a resolved reference stands exactly once in the list of the symbol
/// it resolved to, and that list holds its references in the order in which they were created.
pub proof fn lemma_resolved_reference_listed_once(t: SymbolTableView, r: int)
    requires
        t.wf(),
        0 <= r < t.reference_count(),
        t.reference_symbols[r] is Some,
    ensures
        ({
            let l = t.resolved_references[t.reference_symbols[r]->Some_0.0 as int];
            &&& strictly_increasing(l)
            &&& exists|i: int|
                0 <= i < l.len() && l[i] == ReferenceId(r as u32) && forall|j: int|
                    0 <= j < l.len() && #[trigger] l[j] == ReferenceId(r as u32) ==> j == i
        }),
{
    let s = t.reference_symbols[r]->Some_0.0 as int;
    let l = t.resolved_references[s];
    assert(l.contains(ReferenceId(r as u32)));
    assert(strictly_increasing(l));
    let i = choose|i: int| 0 <= i < l.len() && l[i] == ReferenceId(r as u32);
    lemma_increasing_unique(l, i);
}

impl SymbolTable {
    pub fn new() -> (r: SymbolTable)
        ensures
            r@ == SymbolTableView::empty(),
            r@.wf(),
    {
        let r = SymbolTable {
            spans: Vec::new(),
            names: Vec::new(),
            flags: Vec::new(),
            scope_ids: Vec::new(),
            resolved_references: Vec::new(),
            references: Vec::new(),
        };
        assert(r@.names =~= seq![]);
        assert(r@.resolved_references =~= seq![]);
        assert(r@.reference_names =~= seq![]);
        assert(r@.reference_symbols =~= seq![]);
        r
    }

    /// The number of symbols.
    pub fn len(&self) -> (r: usize)
        ensures
            r == self@.len(),
    {
        self.spans.len()
    }

    pub fn is_empty(&self) -> (r: bool)
        ensures
            r == (self@.len() == 0),
    {
        self.len() == 0
    }

    /// The number of references.
    pub fn references_len(&self) -> (r: usize)
        ensures
            r == self@.reference_count(),
    {
        self.references.len()
    }

    pub fn get_span(&self, symbol_id: SymbolId) -> (r: Span)
        requires
            self@.wf(),
            symbol_id.0 < self@.len(),
        ensures
            r == self@.spans[symbol_id.0 as int],
    {
        self.spans[symbol_id.0 as usize]
    }

    pub fn get_name(&self, symbol_id: SymbolId) -> (r: &String)
        requires
            self@.wf(),
            symbol_id.0 < self@.len(),
        ensures
            r@ == self@.names[symbol_id.0 as int],
    {
        &self.names[symbol_id.0 as usize]
    }

    pub fn get_flag(&self, symbol_id: SymbolId) -> (r: SymbolFlags)
        requires
            self@.wf(),
            symbol_id.0 < self@.len(),
        ensures
            r == self@.flags[symbol_id.0 as int],
    {
        self.flags[symbol_id.0 as usize]
    }

    pub fn get_scope_id(&self, symbol_id: SymbolId) -> (r: ScopeId)
        requires
            self@.wf(),
            symbol_id.0 < self@.len(),
        ensures
            r == self@.scope_ids[symbol_id.0 as int],
    {
        self.scope_ids[symbol_id.0 as usize]
    }

    /// Appends a symbol, with an empty list of resolved references, and returns its id.
    pub fn create_symbol(
        &mut self,
        span: Span,
        name: String,
        flag: SymbolFlags,
        scope_id: ScopeId,
    ) -> (r: SymbolId)
        requires
            old(self)@.wf(),
            old(self)@.len() < u32::MAX,
        ensures
            r.0 == old(self)@.len(),
            final(self)@ == old(self)@.add_symbol(span, name@, flag, scope_id),
            final(self)@.wf(),
    {
        let ghost name_view = name@;
        let id = self.spans.len() as u32;
        self.spans.push(span);
        self.names.push(name);
        self.flags.push(flag);
        self.scope_ids.push(scope_id);
        self.resolved_references.push(Vec::new());
        assert(self@.names =~= old(self)@.names.push(name_view));
        assert(self@.resolved_references =~= old(self)@.resolved_references.push(seq![]));
        assert(self@.reference_names =~= old(self)@.reference_names);
        assert(self@.reference_symbols =~= old(self)@.reference_symbols);
        proof {
            old(self)@.lemma_add_symbol_wf(span, name_view, flag, scope_id);
        }
        SymbolId(id)
    }

    /// Appends a reference that resolves to nothing, and returns its id.
    pub fn create_reference(&mut self, span: Span, name: String) -> (r: ReferenceId)
        requires
            old(self)@.wf(),
            old(self)@.reference_count() < u32::MAX,
        ensures
            r.0 == old(self)@.reference_count(),
            final(self)@ == old(self)@.add_reference(name@),
            final(self)@.wf(),
    {
        let ghost name_view = name@;
        let id = self.references.len() as u32;
        self.references.push(Reference::new(name));
        assert(self@.names =~= old(self)@.names);
        assert(self@.resolved_references =~= old(self)@.resolved_references);
        assert(self@.reference_names =~= old(self)@.reference_names.push(name_view));
        assert(self@.reference_symbols =~= old(self)@.reference_symbols.push(None));
        proof {
            old(self)@.lemma_add_reference_wf(name_view);
        }
        ReferenceId(id)
    }

    pub fn get_reference(&self, reference_id: ReferenceId) -> (r: &Reference)
        requires
            self@.wf(),
            reference_id.0 < self@.reference_count(),
        ensures
            r.name@ == self@.reference_names[reference_id.0 as int],
            r.symbol_id == self@.reference_symbols[reference_id.0 as int],
    {
        &self.references[reference_id.0 as usize]
    }

    /// Whether the reference resolved to no symbol.
    pub fn is_global_reference(&self, reference_id: ReferenceId) -> (r: bool)
        requires
            self@.wf(),
            reference_id.0 < self@.reference_count(),
        ensures
            r == (self@.reference_symbols[reference_id.0 as int] is None),
    {
        self.references[reference_id.0 as usize].symbol_id.is_none()
    }

    /// The references that resolved to the symbol, in order of creation.
    pub fn get_resolved_references(&self, symbol_id: SymbolId) -> (r: &Vec<ReferenceId>)
        requires
            self@.wf(),
            symbol_id.0 < self@.len(),
        ensures
            r@ == self@.resolved_references[symbol_id.0 as int],
    {
        &self.resolved_references[symbol_id.0 as usize]
    }

    /// Records that the reference resolved to the symbol: the reference takes the symbol's id
    /// and the symbol's list takes the reference, in its place by order of creation.
    pub fn resolve_reference(&mut self, reference_id: ReferenceId, symbol_id: SymbolId)
        requires
            old(self)@.wf(),
            reference_id.0 < old(self)@.reference_count(),
            symbol_id.0 < old(self)@.len(),
            old(self)@.reference_symbols[reference_id.0 as int] is None,
        ensures
            final(self)@ == old(self)@.resolve(reference_id, symbol_id),
            final(self)@.wf(),
    {
        let ghost v0 = self@;
        let s = symbol_id.0 as usize;
        let ghost list = v0.resolved_references[s as int];
        let mut pos: usize = self.resolved_references[s].len();
        assert(list.subrange(0, pos as int) =~= list);
        assert(list.subrange(pos as int, list.len() as int) =~= seq![]);
        assert(insert_sorted(list, reference_id) + seq![] =~= insert_sorted(list, reference_id));
        while pos > 0 && self.resolved_references[s][pos - 1].0 >= reference_id.0
            invariant
                self@ == v0,
                s == symbol_id.0,
                s < self.resolved_references@.len(),
                list == self.resolved_references@[s as int]@,
                pos <= list.len(),
                insert_sorted(list, reference_id) == insert_sorted(list.subrange(0, pos as int), reference_id)
                    + list.subrange(pos as int, list.len() as int),
            decreases pos,
        {
            let ghost pre = list.subrange(0, pos as int);
            assert(pre.drop_last() =~= list.subrange(0, pos - 1));
            assert(list.subrange(pos - 1, list.len() as int) =~= seq![list[pos - 1]]
                + list.subrange(pos as int, list.len() as int));
            assert(insert_sorted(pre, reference_id) == insert_sorted(pre.drop_last(), reference_id).push(
                list[pos - 1],
            ));
            assert(insert_sorted(pre.drop_last(), reference_id).push(list[pos - 1]) + list.subrange(
                pos as int,
                list.len() as int,
            ) =~= insert_sorted(pre.drop_last(), reference_id) + list.subrange(
                pos - 1,
                list.len() as int,
            ));
            pos = pos - 1;
        }
        proof {
            let pre = list.subrange(0, pos as int);
            if pos == 0 {
                assert(pre =~= seq![]);
            } else {
                assert(pre.last() == list[pos - 1]);
            }
            assert(list.insert(pos as int, reference_id) =~= insert_sorted(list, reference_id));
        }
        self.resolved_references[s].insert(pos, reference_id);
        self.references[reference_id.0 as usize].symbol_id = Some(symbol_id);
        let ghost v = self@;
        let ghost goal = v0.resolve(reference_id, symbol_id);
        assert(v.resolved_references =~= goal.resolved_references);
        assert(v.reference_names =~= goal.reference_names);
        assert(v.reference_symbols =~= goal.reference_symbols);
        assert(v.names =~= goal.names);
        assert(v == goal);
        proof {
            v0.lemma_resolve_wf(reference_id, symbol_id);
        }
    }
}

} // verus!
