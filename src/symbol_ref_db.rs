use vstd::prelude::*;

use crate::types::{
    ChunkIdx, ModuleIdx, NamespaceAlias, NodeId, ScopeId, Span, SymbolFlags, SymbolId, SymbolRef,
    SymbolRefFlags,
};
use std::collections::HashMap;

verus! {

/// Link-time data of one symbol.
#[derive(Clone, Debug)]
pub struct SymbolRefDataClassic {
    /// When set, every use of this symbol becomes a property access on a namespace object.
    pub namespace_alias: Option<NamespaceAlias>,
    pub name: String,
    /// Parent pointer in the disjoint-set forest; `None` marks a canonical symbol.
    pub link: Option<SymbolRef>,
    /// The output chunk that emits this symbol, once chunking has decided.
    pub chunk_id: Option<ChunkIdx>,
}

impl SymbolRefDataClassic {
    /// A fresh record: unlinked, unaliased and not yet placed in a chunk.
    pub open spec fn is_fresh_named(self, name: Seq<char>) -> bool {
        &&& self.name@ == name
        &&& self.link is None
        &&& self.chunk_id is None
        &&& self.namespace_alias is None
    }

    pub fn fresh(name: String) -> (r: SymbolRefDataClassic)
        ensures
            r.is_fresh_named(name@),
    {
        SymbolRefDataClassic { namespace_alias: None, name, link: None, chunk_id: None }
    }
}

/// Parser-level symbol table of one module: one entry per declared symbol,
/// stored column by column.
#[derive(Clone, Debug)]
pub struct SymbolTable {
    pub spans: Vec<Span>,
    pub names: Vec<String>,
    pub flags: Vec<SymbolFlags>,
    pub scope_ids: Vec<ScopeId>,
    pub declarations: Vec<NodeId>,
}

impl SymbolTable {
    /// All columns have one entry per symbol.
    pub open spec fn wf(&self) -> bool {
        &&& self.spans@.len() == self.names@.len()
        &&& self.flags@.len() == self.names@.len()
        &&& self.scope_ids@.len() == self.names@.len()
        &&& self.declarations@.len() == self.names@.len()
    }

    pub fn new() -> (r: SymbolTable)
        ensures
            r.wf(),
            r.names@.len() == 0,
    {
        SymbolTable {
            spans: Vec::new(),
            names: Vec::new(),
            flags: Vec::new(),
            scope_ids: Vec::new(),
            declarations: Vec::new(),
        }
    }

    /// Appends a symbol and returns its id, the former number of symbols.
    pub fn create_symbol(
        &mut self,
        span: Span,
        name: String,
        flags: SymbolFlags,
        scope_id: ScopeId,
        node_id: NodeId,
    ) -> (r: SymbolId)
        requires
            old(self).wf(),
        ensures
            final(self).wf(),
            r.0 == old(self).names@.len(),
            final(self).spans@ == old(self).spans@.push(span),
            final(self).names@ == old(self).names@.push(name),
            final(self).flags@ == old(self).flags@.push(flags),
            final(self).scope_ids@ == old(self).scope_ids@.push(scope_id),
            final(self).declarations@ == old(self).declarations@.push(node_id),
    {
        let id = SymbolId(self.names.len());
        self.spans.push(span);
        self.names.push(name);
        self.flags.push(flags);
        self.scope_ids.push(scope_id);
        self.declarations.push(node_id);
        id
    }
}

/// Symbols of one module: the parser's table, sparse link-time flags keyed by
/// symbol index, and one classic record per symbol.
#[derive(Debug)]
pub struct SymbolRefDbForModule {
    pub symbol_table: SymbolTable,
    pub flags: HashMap<usize, SymbolRefFlags>,
    pub classic_data: Vec<SymbolRefDataClassic>,
}

impl SymbolRefDbForModule {
    /// Every symbol of the table is a root of the disjoint-set forest.
    pub open spec fn all_unlinked(&self) -> bool {
        forall|i: int| 0 <= i < self.classic_data@.len() ==> (#[trigger] self.classic_data@[i]).link is None
    }

    /// One fresh classic record per name of `symbol_table`, in order.
    pub fn new(symbol_table: SymbolTable) -> (r: SymbolRefDbForModule)
        ensures
            r.symbol_table == symbol_table,
            r.flags@ == Map::<usize, SymbolRefFlags>::empty(),
            r.classic_data@.len() == symbol_table.names@.len(),
            forall|i: int|
                0 <= i < r.classic_data@.len() ==> (#[trigger] r.classic_data@[i]).is_fresh_named(
                    symbol_table.names@[i]@,
                ),
            r.all_unlinked(),
    {
        let mut classic_data: Vec<SymbolRefDataClassic> = Vec::new();
        let mut i: usize = 0;
        while i < symbol_table.names.len()
            invariant
                i <= symbol_table.names@.len(),
                classic_data@.len() == i,
                forall|j: int|
                    0 <= j < i ==> (#[trigger] classic_data@[j]).is_fresh_named(
                        symbol_table.names@[j]@,
                    ),
            decreases symbol_table.names@.len() - i,
        {
            classic_data.push(SymbolRefDataClassic::fresh(symbol_table.names[i].clone()));
            i = i + 1;
        }
        SymbolRefDbForModule { symbol_table, flags: HashMap::new(), classic_data }
    }

    /// Declares a symbol in both the parser table and the classic records;
    /// returns the parser table's id for it.
    pub fn create_symbol(
        &mut self,
        span: Span,
        name: String,
        flags: SymbolFlags,
        scope_id: ScopeId,
        node_id: NodeId,
    ) -> (r: SymbolId)
        requires
            old(self).symbol_table.wf(),
        ensures
            final(self).symbol_table.wf(),
            r.0 == old(self).symbol_table.names@.len(),
            final(self).symbol_table.names@ == old(self).symbol_table.names@.push(name),
            final(self).symbol_table.spans@ == old(self).symbol_table.spans@.push(span),
            final(self).symbol_table.flags@ == old(self).symbol_table.flags@.push(flags),
            final(self).symbol_table.scope_ids@ == old(self).symbol_table.scope_ids@.push(scope_id),
            final(self).symbol_table.declarations@ == old(self).symbol_table.declarations@.push(
                node_id,
            ),
            final(self).flags@ == old(self).flags@,
            final(self).classic_data@.len() == old(self).classic_data@.len() + 1,
            final(self).classic_data@.drop_last() == old(self).classic_data@,
            final(self).classic_data@.last().is_fresh_named(name@),
    {
        self.classic_data.push(SymbolRefDataClassic::fresh(name.clone()));
        self.symbol_table.create_symbol(span, name, flags, scope_id, node_id)
    }
}

/// Symbols of all modules, indexed by module, with a disjoint-set forest
/// over them that names one canonical symbol per class.
pub struct SymbolRefDb {
    inner: Vec<Option<SymbolRefDbForModule>>,
    /// Strictly grows along every link; justifies that chains end.
    rank: Ghost<spec_fn(SymbolRef) -> nat>,
    /// Upper bound of the rank of every link target.
    bound: Ghost<nat>,
}

impl SymbolRefDb {
    /// The per-module tables, `None` where none is installed.
    pub closed spec fn slots(&self) -> Seq<Option<SymbolRefDbForModule>> {
        self.inner@
    }

    pub closed spec fn rank_of(&self, r: SymbolRef) -> nat {
        (self.rank@)(r)
    }

    pub closed spec fn rank_bound(&self) -> nat {
        self.bound@
    }

    pub open spec fn installed(&self, m: ModuleIdx) -> bool {
        m.0 < self.slots().len() && self.slots()[m.0 as int] is Some
    }

    pub open spec fn local(&self, m: ModuleIdx) -> SymbolRefDbForModule {
        self.slots()[m.0 as int]->Some_0
    }

    /// `r` names a symbol of an installed table.
    pub open spec fn valid_ref(&self, r: SymbolRef) -> bool {
        self.installed(r.owner) && r.symbol.0 < self.local(r.owner).classic_data@.len()
    }

    pub open spec fn data(&self, r: SymbolRef) -> SymbolRefDataClassic {
        self.local(r.owner).classic_data@[r.symbol.0 as int]
    }

    pub open spec fn link_of(&self, r: SymbolRef) -> Option<SymbolRef> {
        self.data(r).link
    }

    pub open spec fn is_root(&self, r: SymbolRef) -> bool {
        self.link_of(r) is None
    }

    /// Links point to existing symbols and climb in rank, so the forest is acyclic.
    #[verifier::opaque]
    pub closed spec fn wf(&self) -> bool {
        forall|r: SymbolRef|
            #![trigger self.link_of(r)]
            self.valid_ref(r) && self.link_of(r) is Some ==> {
                let p = self.link_of(r)->Some_0;
                &&& self.valid_ref(p)
                &&& self.rank_of(r) < self.rank_of(p)
                &&& self.rank_of(p) <= self.rank_bound()
            }
    }

    /// The root reached from `r` by following links.
    pub closed spec fn canonical(&self, r: SymbolRef) -> SymbolRef
        decreases self.rank_bound() - self.rank_of(r),
    {
        match self.link_of(r) {
            Some(p) => if self.rank_of(r) < self.rank_of(p) && self.rank_of(p) <= self.rank_bound() {
                self.canonical(p)
            } else {
                r
            },
            None => r,
        }
    }

    /// Number of links followed from `r` to its canonical symbol.
    pub closed spec fn hops(&self, r: SymbolRef) -> nat
        decreases self.rank_bound() - self.rank_of(r),
    {
        match self.link_of(r) {
            Some(p) => if self.rank_of(r) < self.rank_of(p) && self.rank_of(p) <= self.rank_bound() {
                1 + self.hops(p)
            } else {
                0
            },
            None => 0,
        }
    }

    /// `x` is met when following links from `from` (`from` itself included).
    pub closed spec fn on_path(&self, from: SymbolRef, x: SymbolRef) -> bool
        decreases self.rank_bound() - self.rank_of(from),
    {
        if from == x {
            true
        } else {
            match self.link_of(from) {
                Some(p) => if self.rank_of(from) < self.rank_of(p) && self.rank_of(p) <= self.rank_bound() {
                    self.on_path(p, x)
                } else {
                    false
                },
                None => false,
            }
        }
    }

    /// Every record but the links is the same in both, and a symbol exists in one
    /// exactly when it does in the other.
    #[verifier::opaque]
    pub open spec fn same_but_links(&self, other: &SymbolRefDb) -> bool {
        &&& self.slots().len() == other.slots().len()
        &&& forall|m: ModuleIdx| #[trigger] self.installed(m) == other.installed(m)
        &&& forall|m: ModuleIdx|
            #[trigger] self.installed(m) ==> {
                &&& self.local(m).symbol_table == other.local(m).symbol_table
                &&& self.local(m).flags@ == other.local(m).flags@
                &&& self.local(m).classic_data@.len() == other.local(m).classic_data@.len()
            }
        &&& forall|r: SymbolRef|
            #[trigger] self.valid_ref(r) ==> {
                &&& self.data(r).name == other.data(r).name
                &&& self.data(r).chunk_id == other.data(r).chunk_id
                &&& self.data(r).namespace_alias == other.data(r).namespace_alias
            }
    }

    /// The same modules are installed in both, with the same number of symbols,
    /// the same parser tables and the same flags.
    pub open spec fn keeps_tables_of(&self, other: &SymbolRefDb) -> bool {
        &&& forall|m: ModuleIdx| #[trigger] self.installed(m) == other.installed(m)
        &&& forall|m: ModuleIdx|
            #[trigger] self.installed(m) ==> {
                &&& self.local(m).symbol_table == other.local(m).symbol_table
                &&& self.local(m).flags@ == other.local(m).flags@
                &&& self.local(m).classic_data@.len() == other.local(m).classic_data@.len()
            }
        &&& forall|r: SymbolRef| #[trigger] self.valid_ref(r) == other.valid_ref(r)
    }

    /// `post` is a state that `link(base, target)` may leave behind from `self`.
    pub open spec fn link_step(&self, post: &SymbolRefDb, base: SymbolRef, target: SymbolRef) -> bool {
        &&& post.wf()
        &&& forall|x: SymbolRef| #[trigger] self.valid_ref(x) ==> post.valid_ref(x)
        &&& forall|x: SymbolRef| #[trigger]
            self.valid_ref(x) ==> post.canonical(x) == self.merged(base, target, x)
    }

    /// Where `r`'s class lands after the class of `base` is merged into that of `target`.
    pub open spec fn merged(&self, base: SymbolRef, target: SymbolRef, r: SymbolRef) -> SymbolRef {
        if self.canonical(r) == self.canonical(base) {
            self.canonical(target)
        } else {
            self.canonical(r)
        }
    }

    proof fn lemma_canonical_props(&self, r: SymbolRef)
        requires
            self.wf(),
            self.valid_ref(r),
        ensures
            self.valid_ref(self.canonical(r)),
            self.is_root(self.canonical(r)),
            self.link_of(r) is Some ==> self.canonical(r) == self.canonical(self.link_of(r)->Some_0),
            self.is_root(r) ==> self.canonical(r) == r,
            self.link_of(r) is Some ==> self.valid_ref(self.link_of(r)->Some_0),
            self.link_of(r) is Some ==> self.rank_of(r) < self.rank_of(self.link_of(r)->Some_0),
        decreases self.rank_bound() - self.rank_of(r),
    {
        reveal(SymbolRefDb::wf);
        if let Some(p) = self.link_of(r) {
            self.lemma_canonical_props(p);
        }
    }

    proof fn lemma_hops_props(&self, r: SymbolRef)
        requires
            self.wf(),
            self.valid_ref(r),
        ensures
            self.is_root(r) ==> self.hops(r) == 0,
            self.link_of(r) is Some ==> self.hops(r) == 1 + self.hops(self.link_of(r)->Some_0),
            self.link_of(r) is Some ==> self.on_path(r, self.link_of(r)->Some_0),
    {
        self.lemma_canonical_props(r);
        if let Some(p) = self.link_of(r) {
            assert(self.on_path(p, p));
        }
    }

    /// Symbols met from `t` are valid and rank no lower than `t`; the path goes on
    /// through the parent of each of them.
    proof fn lemma_path_props(&self, t: SymbolRef, c: SymbolRef)
        requires
            self.wf(),
            self.valid_ref(t),
            self.on_path(t, c),
        ensures
            self.valid_ref(c),
            self.rank_of(t) <= self.rank_of(c),
            t != c ==> self.rank_of(t) < self.rank_of(c),
            self.link_of(c) is Some ==> self.on_path(t, self.link_of(c)->Some_0),
        decreases self.rank_bound() - self.rank_of(t),
    {
        self.lemma_canonical_props(t);
        if t == c {
            self.lemma_hops_props(t);
        } else {
            let y = self.link_of(t)->Some_0;
            self.lemma_path_props(y, c);
        }
    }

    /// Two well-formed forests over the same symbols with the same links agree on
    /// every canonical symbol, whatever their ranks.
    proof fn lemma_canonical_frame(&self, other: &SymbolRefDb, r: SymbolRef)
        requires
            self.wf(),
            other.wf(),
            self.valid_ref(r),
            forall|x: SymbolRef| #[trigger] self.valid_ref(x) ==> other.valid_ref(x),
            forall|x: SymbolRef| #[trigger] self.valid_ref(x) ==> other.link_of(x) == self.link_of(x),
        ensures
            other.canonical(r) == self.canonical(r),
        decreases self.rank_bound() - self.rank_of(r),
    {
        reveal(SymbolRefDb::wf);
        self.lemma_canonical_props(r);
        other.lemma_canonical_props(r);
        if let Some(p) = self.link_of(r) {
            self.lemma_canonical_frame(other, p);
        }
    }
}

proof fn lemma_same_but_links_refl(a: &SymbolRefDb)
    ensures
        a.same_but_links(a),
{
    reveal(SymbolRefDb::same_but_links);
}

proof fn lemma_same_but_links_trans(a: &SymbolRefDb, b: &SymbolRefDb, c: &SymbolRefDb)
    requires
        a.same_but_links(b),
        b.same_but_links(c),
    ensures
        a.same_but_links(c),
        forall|r: SymbolRef| #[trigger] a.valid_ref(r) == c.valid_ref(r),
        a.keeps_tables_of(c),
{
    reveal(SymbolRefDb::same_but_links);
    assert forall|r: SymbolRef| #[trigger] a.valid_ref(r) == c.valid_ref(r) by {
        assert(a.installed(r.owner) == b.installed(r.owner));
        assert(b.installed(r.owner) == c.installed(r.owner));
    }
    assert forall|r: SymbolRef| #[trigger] a.valid_ref(r) implies {
        &&& a.data(r).name == c.data(r).name
        &&& a.data(r).chunk_id == c.data(r).chunk_id
        &&& a.data(r).namespace_alias == c.data(r).namespace_alias
    } by {
        assert(a.installed(r.owner) == b.installed(r.owner));
        assert(b.valid_ref(r));
    }
    assert forall|m: ModuleIdx| #[trigger] a.installed(m) implies {
        &&& a.local(m).symbol_table == c.local(m).symbol_table
        &&& a.local(m).flags@ == c.local(m).flags@
        &&& a.local(m).classic_data@.len() == c.local(m).classic_data@.len()
    } by {
        assert(b.installed(m));
    }
    assert forall|m: ModuleIdx| #[trigger] a.installed(m) == c.installed(m) by {
        assert(a.installed(m) == b.installed(m));
    }
}

impl Default for SymbolRefDb {
    fn default() -> (r: SymbolRefDb)
        ensures
            r.wf(),
            r.slots().len() == 0,
    {
        reveal(SymbolRefDb::wf);
        SymbolRefDb { inner: Vec::new(), rank: Ghost(|r: SymbolRef| 0nat), bound: Ghost(0nat) }
    }
}

impl SymbolRefDb {
    /// Both carry the same ghost ranks.
    pub closed spec fn same_ranks(&self, other: &SymbolRefDb) -> bool {
        self.rank@ == other.rank@ && self.bound@ == other.bound@
    }

    /// The classic record of `refer`, as stored (not canonicalized).
    pub fn get(&self, refer: SymbolRef) -> (r: &SymbolRefDataClassic)
        requires
            self.valid_ref(refer),
        ensures
            *r == self.data(refer),
    {
        match &self.inner[refer.owner.0] {
            Some(m) => &m.classic_data[refer.symbol.0],
            None => vstd::pervasive::unreached(),
        }
    }

    /// Mutable access to the classic record of `refer`; nothing else changes.
    pub fn get_mut(&mut self, refer: SymbolRef) -> (r: &mut SymbolRefDataClassic)
        requires
            old(self).valid_ref(refer),
        ensures
            *r == old(self).data(refer),
            final(self).same_ranks(old(self)),
            final(self).slots().len() == old(self).slots().len(),
            forall|i: int|
                0 <= i < old(self).slots().len() && i != refer.owner.0 ==> final(self).slots()[i]
                    == old(self).slots()[i],
            final(self).installed(refer.owner),
            final(self).local(refer.owner).symbol_table == old(self).local(refer.owner).symbol_table,
            final(self).local(refer.owner).flags@ == old(self).local(refer.owner).flags@,
            final(self).local(refer.owner).classic_data@ == old(self).local(
                refer.owner,
            ).classic_data@.update(refer.symbol.0 as int, *final(r)),
    {
        match &mut self.inner[refer.owner.0] {
            Some(m) => &mut m.classic_data[refer.symbol.0],
            None => vstd::pervasive::unreached(),
        }
    }
}

impl SymbolRefDb {
    fn set_link(&mut self, r: SymbolRef, link: Option<SymbolRef>)
        requires
            old(self).valid_ref(r),
        ensures
            final(self).same_ranks(old(self)),
            final(self).same_but_links(old(self)),
            final(self).link_of(r) == link,
            forall|x: SymbolRef|
                #[trigger] old(self).valid_ref(x) && x != r ==> final(self).link_of(x) == old(
                    self,
                ).link_of(x),
    {
        let ghost pre = *self;
        self.get_mut(r).link = link;
        reveal(SymbolRefDb::same_but_links);
        assert forall|m: ModuleIdx| #[trigger] self.installed(m) == pre.installed(m) by {
            if m.0 < pre.slots().len() && m.0 != r.owner.0 {
                assert(self.slots()[m.0 as int] == pre.slots()[m.0 as int]);
            }
        }
        assert forall|x: SymbolRef| #[trigger] self.valid_ref(x) implies {
            &&& self.data(x).name == pre.data(x).name
            &&& self.data(x).chunk_id == pre.data(x).chunk_id
            &&& self.data(x).namespace_alias == pre.data(x).namespace_alias
            &&& (x != r ==> self.data(x) == pre.data(x))
        } by {
            if x.owner.0 != r.owner.0 {
                assert(self.slots()[x.owner.0 as int] == pre.slots()[x.owner.0 as int]);
            }
        }
        assert forall|x: SymbolRef| #[trigger] pre.valid_ref(x) && x != r implies self.link_of(x)
            == pre.link_of(x) by {
            assert(self.installed(x.owner));
            if x.owner.0 != r.owner.0 {
                assert(self.slots()[x.owner.0 as int] == pre.slots()[x.owner.0 as int]);
            }
        }
        assert forall|m: ModuleIdx| #[trigger] self.installed(m) implies {
            &&& self.local(m).symbol_table == pre.local(m).symbol_table
            &&& self.local(m).flags@ == pre.local(m).flags@
            &&& self.local(m).classic_data@.len() == pre.local(m).classic_data@.len()
        } by {
            if m.0 != r.owner.0 {
                assert(self.slots()[m.0 as int] == pre.slots()[m.0 as int]);
            }
        }
    }

    /// In `cur`, the link of `x` is as in `self`, or `x` lies on `self`'s path
    /// from `target` below `c` and now points to its grandparent in `self`.
    closed spec fn halved_below(
        &self,
        cur: &SymbolRefDb,
        target: SymbolRef,
        c: SymbolRef,
        x: SymbolRef,
    ) -> bool {
        ||| cur.link_of(x) == self.link_of(x)
        ||| {
            &&& self.on_path(target, x)
            &&& self.rank_of(x) < self.rank_of(c)
            &&& self.link_of(x) is Some
            &&& self.link_of(self.link_of(x)->Some_0) is Some
            &&& cur.link_of(x) == self.link_of(self.link_of(x)->Some_0)
        }
    }

    /// In `post`, `x` keeps its link or points to a symbol further up its path in `self`.
    pub open spec fn moved_up(&self, post: &SymbolRefDb, x: SymbolRef) -> bool {
        ||| post.link_of(x) == self.link_of(x)
        ||| {
            &&& post.link_of(x) is Some
            &&& post.link_of(x)->Some_0 != x
            &&& self.on_path(x, post.link_of(x)->Some_0)
        }
    }

    /// In `post`, `x` keeps its link, or lies on the path from `base` or from
    /// `target` and points further up its path in `self`.
    pub open spec fn moved_up_from(&self, post: &SymbolRefDb, base: SymbolRef, target: SymbolRef, x: SymbolRef) -> bool {
        ||| post.link_of(x) == self.link_of(x)
        ||| {
            &&& self.on_path(base, x) || self.on_path(target, x)
            &&& post.link_of(x) is Some
            &&& post.link_of(x)->Some_0 != x
            &&& self.on_path(x, post.link_of(x)->Some_0)
        }
    }

    /// A link written by `find_mut` moves `x` up its path.
    proof fn lemma_halved_is_moved_up(&self, post: &SymbolRefDb, target: SymbolRef, x: SymbolRef)
        requires
            self.wf(),
            self.valid_ref(x),
            post.link_of(x) == self.link_of(x) || {
                &&& self.on_path(target, x)
                &&& self.link_of(x) is Some
                &&& self.link_of(self.link_of(x)->Some_0) is Some
                &&& post.link_of(x) == self.link_of(self.link_of(x)->Some_0)
            },
        ensures
            self.moved_up(post, x),
            post.link_of(x) == self.link_of(x) || self.on_path(target, x),
    {
        if post.link_of(x) != self.link_of(x) {
            let p = self.link_of(x)->Some_0;
            assert(self.on_path(x, x));
            self.lemma_path_props(x, x);
            self.lemma_path_props(x, p);
            self.lemma_canonical_props(p);
        }
    }

    proof fn lemma_path_trans(&self, a: SymbolRef, b: SymbolRef, c: SymbolRef)
        requires
            self.wf(),
            self.valid_ref(a),
            self.on_path(a, b),
            self.on_path(b, c),
        ensures
            self.on_path(a, c),
        decreases self.rank_bound() - self.rank_of(a),
    {
        self.lemma_canonical_props(a);
        if a != b {
            let y = self.link_of(a)->Some_0;
            self.lemma_path_trans(y, b, c);
        }
    }

    /// When links only move up their paths, every path of `post` is a path of `self`.
    proof fn lemma_moved_up_paths(&self, post: &SymbolRefDb, y: SymbolRef, z: SymbolRef)
        requires
            self.wf(),
            post.wf(),
            forall|x: SymbolRef| #[trigger] post.valid_ref(x) == self.valid_ref(x),
            forall|x: SymbolRef| #[trigger] self.valid_ref(x) ==> self.moved_up(post, x),
            self.valid_ref(y),
            post.on_path(y, z),
        ensures
            self.on_path(y, z),
        decreases post.rank_bound() - post.rank_of(y),
    {
        post.lemma_canonical_props(y);
        self.lemma_canonical_props(y);
        if y != z {
            let w = post.link_of(y)->Some_0;
            post.lemma_canonical_props(w);
            self.lemma_moved_up_paths(post, w, z);
            assert(self.moved_up(post, y));
            if post.link_of(y) == self.link_of(y) {
                self.lemma_hops_props(y);
            }
            self.lemma_path_trans(y, w, z);
        }
    }

    /// One halving step, seen from the state `self` before the whole search.
    proof fn lemma_halving_invariant(
        &self,
        pre: &SymbolRefDb,
        post: &SymbolRefDb,
        target: SymbolRef,
        c: SymbolRef,
        p: SymbolRef,
        g: SymbolRef,
        k: nat,
    )
        requires
            self.wf(),
            self.valid_ref(target),
            pre.wf(),
            pre.same_ranks(self),
            forall|y: SymbolRef| #[trigger] pre.valid_ref(y) == self.valid_ref(y),
            pre.valid_ref(c),
            pre.link_of(c) == Some(p),
            pre.link_of(p) == Some(g),
            post.wf(),
            post.same_ranks(pre),
            forall|y: SymbolRef| #[trigger] post.valid_ref(y) == pre.valid_ref(y),
            post.link_of(c) == Some(g),
            forall|y: SymbolRef| #[trigger]
                pre.valid_ref(y) && y != c ==> post.link_of(y) == pre.link_of(y),
            pre.on_path(target, c),
            self.on_path(target, c),
            pre.hops(target) + k == self.hops(target),
            pre.hops(c) + 2 * k == self.hops(target),
            forall|x: SymbolRef| #[trigger] self.valid_ref(x) ==> pre.hops(x) <= self.hops(x),
            forall|x: SymbolRef| #[trigger] self.valid_ref(x) ==> self.halved_below(pre, target, c, x),
        ensures
            post.on_path(target, g),
            self.on_path(target, g),
            post.hops(target) + (k + 1) == self.hops(target),
            post.hops(g) + 2 * (k + 1) == self.hops(target),
            forall|x: SymbolRef| #[trigger] self.valid_ref(x) ==> post.hops(x) <= self.hops(x),
            forall|x: SymbolRef| #[trigger] self.valid_ref(x) ==> self.halved_below(post, target, g, x),
            target != g,
    {
        pre.lemma_canonical_props(c);
        pre.lemma_canonical_props(p);
        assert(self.halved_below(pre, target, c, c));
        assert(self.halved_below(pre, target, c, p));
        assert(self.link_of(c) == Some(p));
        assert(self.link_of(p) == Some(g));
        self.lemma_path_props(target, c);
        self.lemma_path_props(target, p);
        pre.lemma_halving_hops(post, c, p, g, target);
        post.lemma_path_props(target, c);
        pre.lemma_hops_props(c);
        pre.lemma_hops_props(p);
        if pre.on_path(g, c) {
            pre.lemma_path_props(g, c);
        }
        pre.lemma_halving_hops(post, c, p, g, g);
        pre.lemma_path_props(target, c);
        assert forall|x: SymbolRef| #[trigger] self.valid_ref(x) implies post.hops(x) <= self.hops(x) by {
            pre.lemma_halving_hops(post, c, p, g, x);
        }
        assert(self.rank_of(c) < self.rank_of(g));
        assert forall|x: SymbolRef| #[trigger] self.valid_ref(x) implies self.halved_below(post, target, g, x) by {
            assert(self.halved_below(pre, target, c, x));
            assert(pre.valid_ref(x));
            if x != c {
                assert(post.link_of(x) == pre.link_of(x));
            }
        }
    }

    /// Returns the canonical symbol of `target`, halving the path on the way:
    /// each visited symbol whose parent is not a root is repointed to its
    /// grandparent, and the search goes on from there. Every symbol keeps its
    /// canonical symbol, no chain grows, and `target` ends about half as far
    /// from its root. On a root nothing is written.
    pub fn find_mut(&mut self, target: SymbolRef) -> (r: SymbolRef)
        requires
            old(self).wf(),
            old(self).valid_ref(target),
        ensures
            r == old(self).canonical(target),
            final(self).wf(),
            final(self).same_but_links(old(self)),
            final(self).valid_ref(r),
            final(self).is_root(r),
            final(self).keeps_tables_of(old(self)),
            forall|x: SymbolRef| #[trigger]
                old(self).valid_ref(x) ==> final(self).canonical(x) == old(self).canonical(x),
            old(self).is_root(target) ==> *final(self) == *old(self),
            final(self).hops(target) == (old(self).hops(target) + 1) / 2,
            forall|x: SymbolRef| #[trigger]
                old(self).valid_ref(x) ==> final(self).hops(x) <= old(self).hops(x),
            forall|x: SymbolRef| #[trigger]
                old(self).valid_ref(x) ==> final(self).link_of(x) == old(self).link_of(x) || {
                    &&& old(self).on_path(target, x)
                    &&& old(self).link_of(x) is Some
                    &&& old(self).link_of(old(self).link_of(x)->Some_0) is Some
                    &&& final(self).link_of(x) == old(self).link_of(old(self).link_of(x)->Some_0)
                },
    {
        proof {
            old(self).lemma_canonical_props(target);
            lemma_same_but_links_refl(old(self));
            assert(old(self).on_path(target, target));
        }
        let mut canonical = target;
        let ghost mut k: nat = 0;
        loop
            invariant
                self.wf(),
                old(self).wf(),
                old(self).valid_ref(target),
                self.same_ranks(old(self)),
                self.same_but_links(old(self)),
                self.valid_ref(canonical),
                self.canonical(canonical) == old(self).canonical(target),
                forall|x: SymbolRef| #[trigger]
                    old(self).valid_ref(x) ==> self.canonical(x) == old(self).canonical(x),
                self.on_path(target, canonical),
                old(self).on_path(target, canonical),
                self.hops(target) + k == old(self).hops(target),
                self.hops(canonical) + 2 * k == old(self).hops(target),
                forall|x: SymbolRef| #[trigger] old(self).valid_ref(x) ==> self.hops(x) <= old(self).hops(x),
                forall|x: SymbolRef| #[trigger]
                    old(self).valid_ref(x) ==> old(self).halved_below(self, target, canonical, x),
                k == 0 ==> canonical == target && *self == *old(self),
                old(self).is_root(target) ==> k == 0,
            decreases self.rank_bound() - self.rank_of(canonical),
        {
            proof {
                self.lemma_canonical_props(canonical);
                self.lemma_hops_props(canonical);
                lemma_same_but_links_refl(old(self));
                lemma_same_but_links_trans(self, old(self), old(self));
            }
            match self.get(canonical).link {
                None => {
                    return canonical;
                },
                Some(parent) => {
                    proof {
                        self.lemma_canonical_props(parent);
                        self.lemma_hops_props(parent);
                    }
                    match self.get(parent).link {
                        None => {
                            return parent;
                        },
                        Some(grand) => {
                            let ghost pre = *self;
                            self.set_link(canonical, Some(grand));
                            proof {
                                pre.lemma_halving_keeps_canonical(self, canonical, parent, grand);
                                lemma_same_but_links_trans(self, &pre, old(self));
                                lemma_same_but_links_refl(old(self));
                                lemma_same_but_links_trans(&pre, old(self), old(self));
                                lemma_same_but_links_refl(&pre);
                                lemma_same_but_links_trans(self, &pre, &pre);
                                assert forall|x: SymbolRef| #[trigger]
                                    old(self).valid_ref(x) implies self.canonical(x) == old(
                                    self,
                                ).canonical(x) by {
                                    assert(pre.valid_ref(x));
                                    assert(pre.canonical(x) == old(self).canonical(x));
                                }
                                old(self).lemma_halving_invariant(
                                    &pre,
                                    self,
                                    target,
                                    canonical,
                                    parent,
                                    grand,
                                    k,
                                );
                                k = k + 1;
                            }
                            canonical = grand;
                        },
                    }
                },
            }
        }
    }

    /// Repointing `c` from `p` to `g` shortens by one exactly the chains that pass
    /// through `c`, and keeps every path to `c`.
    proof fn lemma_halving_hops(
        &self,
        post: &SymbolRefDb,
        c: SymbolRef,
        p: SymbolRef,
        g: SymbolRef,
        x: SymbolRef,
    )
        requires
            self.wf(),
            post.wf(),
            self.valid_ref(c),
            self.valid_ref(x),
            self.link_of(c) == Some(p),
            self.link_of(p) == Some(g),
            post.same_ranks(self),
            forall|y: SymbolRef| #[trigger] post.valid_ref(y) == self.valid_ref(y),
            post.link_of(c) == Some(g),
            forall|y: SymbolRef| #[trigger]
                self.valid_ref(y) && y != c ==> post.link_of(y) == self.link_of(y),
        ensures
            post.hops(x) == self.hops(x) - (if self.on_path(x, c) { 1int } else { 0int }),
            self.on_path(x, c) ==> post.on_path(x, c),
        decreases self.rank_bound() - self.rank_of(x),
    {
        self.lemma_canonical_props(x);
        self.lemma_hops_props(x);
        post.lemma_canonical_props(x);
        post.lemma_hops_props(x);
        if x == c {
            self.lemma_canonical_props(p);
            self.lemma_hops_props(p);
            if self.on_path(g, c) {
                self.lemma_path_props(g, c);
            }
            self.lemma_halving_hops(post, c, p, g, g);
        } else if let Some(y) = self.link_of(x) {
            self.lemma_halving_hops(post, c, p, g, y);
        }
    }

    /// Repointing `c` from its parent `p` to its grandparent `g` keeps the forest
    /// well formed and every canonical symbol.
    proof fn lemma_halving_keeps_canonical(
        &self,
        post: &SymbolRefDb,
        c: SymbolRef,
        p: SymbolRef,
        g: SymbolRef,
    )
        requires
            self.wf(),
            self.valid_ref(c),
            self.link_of(c) == Some(p),
            self.link_of(p) == Some(g),
            post.same_ranks(self),
            post.same_but_links(self),
            post.link_of(c) == Some(g),
            forall|x: SymbolRef| #[trigger]
                self.valid_ref(x) && x != c ==> post.link_of(x) == self.link_of(x),
        ensures
            post.wf(),
            forall|x: SymbolRef| #[trigger] self.valid_ref(x) ==> post.canonical(x) == self.canonical(x),
    {
        reveal(SymbolRefDb::wf);
        reveal(SymbolRefDb::same_but_links);
        assert forall|x: SymbolRef| #[trigger] post.valid_ref(x) == self.valid_ref(x) by {
            assert(post.installed(x.owner) == self.installed(x.owner));
        }
        assert(post.wf());
        assert forall|x: SymbolRef| #[trigger] self.valid_ref(x) implies post.canonical(x)
            == self.canonical(x) by {
            self.lemma_halving_step(post, c, p, g, x);
        }
    }

    proof fn lemma_halving_step(
        &self,
        post: &SymbolRefDb,
        c: SymbolRef,
        p: SymbolRef,
        g: SymbolRef,
        x: SymbolRef,
    )
        requires
            self.wf(),
            post.wf(),
            self.valid_ref(c),
            self.valid_ref(x),
            self.link_of(c) == Some(p),
            self.link_of(p) == Some(g),
            post.same_ranks(self),
            forall|y: SymbolRef| #[trigger] post.valid_ref(y) == self.valid_ref(y),
            post.link_of(c) == Some(g),
            forall|y: SymbolRef| #[trigger]
                self.valid_ref(y) && y != c ==> post.link_of(y) == self.link_of(y),
        ensures
            post.canonical(x) == self.canonical(x),
        decreases self.rank_bound() - self.rank_of(x),
    {
        reveal(SymbolRefDb::wf);
        self.lemma_canonical_props(x);
        if x == c {
            self.lemma_canonical_props(p);
            self.lemma_halving_step(post, c, p, g, g);
        } else if let Some(y) = self.link_of(x) {
            self.lemma_halving_step(post, c, p, g, y);
        }
    }

    /// The canonical symbol of `target`, found without changing anything.
    pub fn canonical_ref_for(&self, target: SymbolRef) -> (r: SymbolRef)
        requires
            self.wf(),
            self.valid_ref(target),
        ensures
            r == self.canonical(target),
            self.valid_ref(r),
            self.is_root(r),
    {
        proof {
            self.lemma_canonical_props(target);
        }
        let mut canonical = target;
        loop
            invariant
                self.wf(),
                self.valid_ref(canonical),
                self.canonical(canonical) == self.canonical(target),
            ensures
                self.valid_ref(canonical),
                self.is_root(canonical),
                self.canonical(canonical) == self.canonical(target),
            decreases self.rank_bound() - self.rank_of(canonical),
        {
            proof {
                self.lemma_canonical_props(canonical);
            }
            match self.get(canonical).link {
                Some(founded) => {
                    canonical = founded;
                },
                None => {
                    break;
                },
            }
        }
        canonical
    }
}

impl SymbolRefDb {
    /// Linking root `b` under root `t` sends `b`'s class to `t` and keeps the rest.
    proof fn lemma_link_roots(&self, post: &SymbolRefDb, b: SymbolRef, t: SymbolRef, x: SymbolRef)
        requires
            self.wf(),
            self.valid_ref(b),
            self.valid_ref(t),
            self.valid_ref(x),
            self.is_root(b),
            self.is_root(t),
            b != t,
            self.rank_of(b) < self.rank_of(t),
            self.rank_of(t) <= self.rank_bound(),
            post.same_ranks(self),
            forall|y: SymbolRef| #[trigger] post.valid_ref(y) == self.valid_ref(y),
            post.link_of(b) == Some(t),
            forall|y: SymbolRef| #[trigger]
                self.valid_ref(y) && y != b ==> post.link_of(y) == self.link_of(y),
        ensures
            post.wf(),
            post.canonical(x) == (if self.canonical(x) == b {
                t
            } else {
                self.canonical(x)
            }),
        decreases self.rank_bound() - self.rank_of(x),
    {
        reveal(SymbolRefDb::wf);
        assert(post.wf());
        self.lemma_canonical_props(x);
        assert(post.link_of(t) is None);
        assert(post.canonical(t) == t);
        if x == b {
            assert(post.canonical(b) == post.canonical(t));
        } else {
            if let Some(y) = self.link_of(x) {
                self.lemma_link_roots(post, b, t, y);
                assert(post.canonical(x) == post.canonical(y));
            }
        }
    }

    /// Raises the rank of root `t` above that of `b`; nothing else changes.
    fn raise_rank(&mut self, b: SymbolRef, t: SymbolRef)
        requires
            old(self).wf(),
            old(self).valid_ref(b),
            old(self).valid_ref(t),
            old(self).is_root(t),
            b != t,
        ensures
            final(self).wf(),
            final(self).slots() == old(self).slots(),
            final(self).rank_of(b) < final(self).rank_of(t),
            final(self).rank_of(t) <= final(self).rank_bound(),
            forall|x: SymbolRef| #[trigger]
                old(self).valid_ref(x) ==> final(self).canonical(x) == old(self).canonical(x),
    {
        reveal(SymbolRefDb::wf);
        let ghost s1 = *self;
        let ghost r1 = self.rank@;
        let ghost top: nat = if r1(t) > r1(b) {
            r1(t)
        } else {
            (r1(b) + 1) as nat
        };
        self.rank = Ghost(|x: SymbolRef| if x == t { top } else { r1(x) });
        self.bound = Ghost(if self.bound@ >= top { self.bound@ } else { top });
        proof {
            assert forall|r: SymbolRef| #![trigger self.link_of(r)]
                self.valid_ref(r) && self.link_of(r) is Some implies {
                let p = self.link_of(r)->Some_0;
                &&& self.valid_ref(p)
                &&& self.rank_of(r) < self.rank_of(p)
                &&& self.rank_of(p) <= self.rank_bound()
            } by {
                assert(s1.link_of(r) == self.link_of(r));
                assert(r != t);
            }
            assert(self.wf());
            assert forall|x: SymbolRef| #[trigger]
                s1.valid_ref(x) implies self.canonical(x) == s1.canonical(x) by {
                s1.lemma_canonical_frame(self, x);
            }
        }
    }

    /// Merges the classes of `base` and `target`: the root of `base`'s class is
    /// linked under the root of `target`'s class, which stays canonical.
    #[verifier::rlimit(60)]
    pub fn link(&mut self, base: SymbolRef, target: SymbolRef)
        requires
            old(self).wf(),
            old(self).valid_ref(base),
            old(self).valid_ref(target),
        ensures
            final(self).wf(),
            final(self).same_but_links(old(self)),
            final(self).keeps_tables_of(old(self)),
            forall|x: SymbolRef| #[trigger]
                old(self).valid_ref(x) ==> final(self).canonical(x) == old(self).merged(base, target, x),
            final(self).canonical(base) == final(self).canonical(target),
            final(self).canonical(target) == old(self).canonical(target),
            old(self).link_step(final(self), base, target),
            base == target && old(self).is_root(base) ==> *final(self) == *old(self),
            forall|x: SymbolRef| #[trigger]
                old(self).valid_ref(x) ==> old(self).moved_up_from(final(self), base, target, x) || {
                    &&& x == old(self).canonical(base)
                    &&& old(self).canonical(base) != old(self).canonical(target)
                    &&& final(self).link_of(x) == Some(old(self).canonical(target))
                },
    {
        let base_root = self.find_mut(base);
        let ghost sa = *self;
        let target_root = self.find_mut(target);
        proof {
            lemma_find_chain(old(self), &sa, self, base, target);
            lemma_two_finds(old(self), &sa, self, base, target);
        }
        if base_root == target_root {
            proof {
                lemma_same_but_links_refl(old(self));
                lemma_same_but_links_trans(self, old(self), old(self));
            }
            return;
        }
        let ghost s1 = *self;
        self.raise_rank(base_root, target_root);
        let ghost s2 = *self;
        self.set_link(base_root, Some(target_root));
        proof {
            assert forall|x: SymbolRef| #[trigger] old(self).valid_ref(x) implies old(self).moved_up_from(self, base, target, x) || {
                &&& x == old(self).canonical(base)
                &&& old(self).canonical(base) != old(self).canonical(target)
                &&& self.link_of(x) == Some(old(self).canonical(target))
            } by {
                assert(old(self).moved_up_from(&s1, base, target, x));
                if x != base_root {
                    assert(s1.valid_ref(x));
                    assert(s2.valid_ref(x));
                    assert(s2.link_of(x) == s1.link_of(x));
                }
            }
            lemma_link_post(old(self), &s1, &s2, self, base, target, base_root, target_root);
            lemma_same_but_links_refl(old(self));
            lemma_same_but_links_trans(self, old(self), old(self));
        }
    }
}

proof fn lemma_find_chain(
    s0: &SymbolRefDb,
    sa: &SymbolRefDb,
    sb: &SymbolRefDb,
    base: SymbolRef,
    target: SymbolRef,
)
    requires
        s0.wf(),
        s0.valid_ref(base),
        s0.valid_ref(target),
        sa.wf(),
        sa.same_but_links(s0),
        forall|x: SymbolRef| #[trigger] sa.valid_ref(x) == s0.valid_ref(x),
        forall|x: SymbolRef| #[trigger] s0.valid_ref(x) ==> sa.canonical(x) == s0.canonical(x),
        sb.wf(),
        sb.same_but_links(sa),
        forall|x: SymbolRef| #[trigger] sb.valid_ref(x) == sa.valid_ref(x),
        forall|x: SymbolRef| #[trigger] sa.valid_ref(x) ==> sb.canonical(x) == sa.canonical(x),
    ensures
        sb.same_but_links(s0),
        forall|x: SymbolRef| #[trigger] sb.valid_ref(x) == s0.valid_ref(x),
        forall|x: SymbolRef| #[trigger] s0.valid_ref(x) ==> sb.canonical(x) == s0.canonical(x),
        sb.canonical(base) == s0.canonical(base),
        sb.canonical(target) == s0.canonical(target),
        s0.canonical(base) == s0.canonical(target) ==> forall|x: SymbolRef| #[trigger]
            s0.valid_ref(x) ==> sb.canonical(x) == s0.merged(base, target, x),
        s0.canonical(base) == s0.canonical(target) ==> sb.canonical(base) == sb.canonical(target),
        sb.valid_ref(s0.canonical(base)),
        sb.is_root(s0.canonical(base)),
        sb.valid_ref(s0.canonical(target)),
        sb.is_root(s0.canonical(target)),
{
    lemma_same_but_links_trans(sb, sa, s0);
    assert(sa.valid_ref(base) && sa.valid_ref(target));
    assert forall|x: SymbolRef| #[trigger] s0.valid_ref(x) implies sb.canonical(x) == s0.canonical(x) by {
        assert(sa.valid_ref(x));
    }
    sb.lemma_canonical_props(base);
    sb.lemma_canonical_props(target);
}

proof fn lemma_two_finds(
    s0: &SymbolRefDb,
    sa: &SymbolRefDb,
    sb: &SymbolRefDb,
    base: SymbolRef,
    target: SymbolRef,
)
    requires
        s0.wf(),
        sa.wf(),
        sb.wf(),
        forall|x: SymbolRef| #[trigger] sa.valid_ref(x) == s0.valid_ref(x),
        forall|x: SymbolRef| #[trigger] sb.valid_ref(x) == sa.valid_ref(x),
        s0.valid_ref(target),
        forall|x: SymbolRef| #[trigger]
            s0.valid_ref(x) ==> sa.link_of(x) == s0.link_of(x) || {
                &&& s0.on_path(base, x)
                &&& s0.link_of(x) is Some
                &&& s0.link_of(s0.link_of(x)->Some_0) is Some
                &&& sa.link_of(x) == s0.link_of(s0.link_of(x)->Some_0)
            },
        forall|x: SymbolRef| #[trigger]
            sa.valid_ref(x) ==> sb.link_of(x) == sa.link_of(x) || {
                &&& sa.on_path(target, x)
                &&& sa.link_of(x) is Some
                &&& sa.link_of(sa.link_of(x)->Some_0) is Some
                &&& sb.link_of(x) == sa.link_of(sa.link_of(x)->Some_0)
            },
    ensures
        forall|x: SymbolRef| #[trigger] s0.valid_ref(x) ==> s0.moved_up_from(sb, base, target, x),
{
    assert forall|x: SymbolRef| #[trigger] s0.valid_ref(x) implies s0.moved_up(sa, x) by {
        s0.lemma_halved_is_moved_up(sa, base, x);
    }
    assert forall|x: SymbolRef| #[trigger] s0.valid_ref(x) implies s0.moved_up_from(sb, base, target, x) by {
        s0.lemma_halved_is_moved_up(sa, base, x);
        assert(sa.valid_ref(x));
        sa.lemma_halved_is_moved_up(sb, target, x);
        if sb.link_of(x) != sa.link_of(x) {
            s0.lemma_moved_up_paths(sa, target, x);
            let w = sb.link_of(x)->Some_0;
            s0.lemma_moved_up_paths(sa, x, w);
        }
    }
}

proof fn lemma_link_post(
    s0: &SymbolRefDb,
    s1: &SymbolRefDb,
    s2: &SymbolRefDb,
    s3: &SymbolRefDb,
    base: SymbolRef,
    target: SymbolRef,
    b: SymbolRef,
    t: SymbolRef,
)
    requires
        s0.wf(),
        s0.valid_ref(base),
        s0.valid_ref(target),
        b == s0.canonical(base),
        t == s0.canonical(target),
        b != t,
        s1.wf(),
        s1.same_but_links(s0),
        s1.valid_ref(b),
        s1.valid_ref(t),
        s1.is_root(b),
        s1.is_root(t),
        forall|x: SymbolRef| #[trigger] s0.valid_ref(x) ==> s1.canonical(x) == s0.canonical(x),
        s2.wf(),
        s2.slots() == s1.slots(),
        s2.rank_of(b) < s2.rank_of(t),
        s2.rank_of(t) <= s2.rank_bound(),
        forall|x: SymbolRef| #[trigger] s1.valid_ref(x) ==> s2.canonical(x) == s1.canonical(x),
        s3.same_ranks(s2),
        s3.same_but_links(s2),
        s3.link_of(b) == Some(t),
        forall|x: SymbolRef| #[trigger]
            s2.valid_ref(x) && x != b ==> s3.link_of(x) == s2.link_of(x),
    ensures
        s3.wf(),
        s3.same_but_links(s0),
        forall|x: SymbolRef| #[trigger]
            s0.valid_ref(x) ==> s3.canonical(x) == s0.merged(base, target, x),
        s3.canonical(base) == s3.canonical(target),
        s3.canonical(target) == s0.canonical(target),
{
    reveal(SymbolRefDb::same_but_links);
    lemma_same_but_links_refl(s0);
    lemma_same_but_links_trans(s1, s0, s0);
    assert(s2.same_but_links(s1));
    lemma_same_but_links_trans(s2, s1, s0);
    lemma_same_but_links_trans(s3, s2, s0);
    assert(s2.is_root(b) && s2.is_root(t));
    assert forall|x: SymbolRef| #[trigger]
        s0.valid_ref(x) implies s3.canonical(x) == s0.merged(base, target, x) by {
        assert(s1.valid_ref(x));
        assert(s2.valid_ref(x));
        s2.lemma_link_roots(s3, b, t, x);
    }
    s2.lemma_link_roots(s3, b, t, base);
    s2.lemma_link_roots(s3, b, t, target);
    s0.lemma_canonical_props(target);
}

impl SymbolRefDb {
    /// Every symbol of `self` exists in `post` with the same record and the same
    /// canonical symbol.
    pub open spec fn grows_to(&self, post: &SymbolRefDb) -> bool {
        &&& forall|x: SymbolRef| #[trigger] self.valid_ref(x) ==> post.valid_ref(x)
        &&& forall|x: SymbolRef| #[trigger] self.valid_ref(x) ==> post.data(x) == self.data(x)
        &&& forall|x: SymbolRef| #[trigger] self.valid_ref(x) ==> post.canonical(x) == self.canonical(x)
    }

    fn ensure_exact_capacity(&mut self, module_idx: ModuleIdx)
        requires
            old(self).wf(),
            module_idx.0 < usize::MAX,
        ensures
            final(self).wf(),
            final(self).slots().len() == if old(self).slots().len() > module_idx.0 {
                old(self).slots().len() as int
            } else {
                module_idx.0 + 1
            },
            forall|i: int| 0 <= i < old(self).slots().len() ==> final(self).slots()[i] == old(self).slots()[i],
            forall|i: int|
                old(self).slots().len() <= i < final(self).slots().len() ==> final(self).slots()[i] is None,
            forall|x: SymbolRef| #[trigger] final(self).valid_ref(x) == old(self).valid_ref(x),
            old(self).grows_to(final(self)),
    {
        let new_len = module_idx.0 + 1;
        while self.inner.len() < new_len
            invariant
                old(self).wf(),
                self.same_ranks(old(self)),
                old(self).slots().len() <= self.slots().len(),
                self.slots().len() <= if old(self).slots().len() > module_idx.0 {
                    old(self).slots().len() as int
                } else {
                    module_idx.0 + 1
                },
                new_len == module_idx.0 + 1,
                forall|i: int| 0 <= i < old(self).slots().len() ==> self.slots()[i] == old(self).slots()[i],
                forall|i: int| old(self).slots().len() <= i < self.slots().len() ==> self.slots()[i] is None,
            decreases new_len - self.inner@.len(),
        {
            self.inner.push(None);
        }
        proof {
            assert forall|x: SymbolRef| #[trigger] self.valid_ref(x) == old(self).valid_ref(x) by {
                if x.owner.0 < old(self).slots().len() {
                    assert(self.slots()[x.owner.0 as int] == old(self).slots()[x.owner.0 as int]);
                }
            }
            assert forall|x: SymbolRef| #[trigger] old(self).valid_ref(x) implies self.data(x) == old(self).data(x) by {
                assert(self.slots()[x.owner.0 as int] == old(self).slots()[x.owner.0 as int]);
            }
            reveal(SymbolRefDb::wf);
            assert forall|r: SymbolRef| #![trigger self.link_of(r)]
                self.valid_ref(r) && self.link_of(r) is Some implies {
                let p = self.link_of(r)->Some_0;
                &&& self.valid_ref(p)
                &&& self.rank_of(r) < self.rank_of(p)
                &&& self.rank_of(p) <= self.rank_bound()
            } by {
                assert(old(self).valid_ref(r));
                assert(old(self).link_of(r) == self.link_of(r));
                let p = self.link_of(r)->Some_0;
                assert(old(self).valid_ref(p));
            }
            assert(self.wf());
            assert forall|x: SymbolRef| #[trigger]
                old(self).valid_ref(x) implies self.canonical(x) == old(self).canonical(x) by {
                old(self).lemma_canonical_frame(self, x);
            }
        }
    }

    /// Installs the symbol table of module `module_id`, growing the slots with
    /// empty ones as far as needed. Its symbols start as their own canonical symbols.
    pub fn store_local_db(&mut self, module_id: ModuleIdx, local_db: SymbolRefDbForModule)
        requires
            old(self).wf(),
            !old(self).installed(module_id),
            module_id.0 < usize::MAX,
            local_db.all_unlinked(),
        ensures
            final(self).wf(),
            final(self).slots().len() == if old(self).slots().len() > module_id.0 {
                old(self).slots().len() as int
            } else {
                module_id.0 + 1
            },
            final(self).slots()[module_id.0 as int] == Some(local_db),
            forall|i: int|
                0 <= i < final(self).slots().len() && i != module_id.0 ==> final(self).slots()[i] == if i
                    < old(self).slots().len() {
                    old(self).slots()[i]
                } else {
                    None
                },
            old(self).grows_to(final(self)),
            forall|x: SymbolRef| #[trigger]
                final(self).valid_ref(x) && x.owner == module_id ==> final(self).canonical(x) == x,
    {
        self.ensure_exact_capacity(module_id);
        let ghost mid = *self;
        self.inner.set(module_id.0, Some(local_db));
        proof {
            assert forall|x: SymbolRef| #[trigger] mid.valid_ref(x) implies self.valid_ref(x)
                && self.data(x) == mid.data(x) by {
                assert(x.owner != module_id);
                assert(self.slots()[x.owner.0 as int] == mid.slots()[x.owner.0 as int]);
            }
            assert forall|x: SymbolRef| #[trigger] self.valid_ref(x) && x.owner != module_id implies mid.valid_ref(x) by {
                assert(self.slots()[x.owner.0 as int] == mid.slots()[x.owner.0 as int]);
            }
            assert forall|x: SymbolRef| #[trigger] self.valid_ref(x) && x.owner == module_id implies self.link_of(x) is None by {
                assert(local_db.classic_data@[x.symbol.0 as int].link is None);
            }
            reveal(SymbolRefDb::wf);
            assert(self.wf());
            assert forall|x: SymbolRef| #[trigger]
                mid.valid_ref(x) implies self.canonical(x) == mid.canonical(x) by {
                mid.lemma_canonical_frame(self, x);
            }
            assert forall|x: SymbolRef| #[trigger]
                self.valid_ref(x) && x.owner == module_id implies self.canonical(x) == x by {
                self.lemma_canonical_props(x);
            }
        }
    }

    /// Appends a fresh symbol named `name` to the installed module `owner`.
    pub fn create_symbol(&mut self, owner: ModuleIdx, name: String) -> (r: SymbolRef)
        requires
            old(self).wf(),
            old(self).installed(owner),
        ensures
            r.owner == owner,
            r.symbol.0 == old(self).local(owner).classic_data@.len(),
            final(self).wf(),
            final(self).valid_ref(r),
            !old(self).valid_ref(r),
            final(self).data(r).is_fresh_named(name@),
            final(self).canonical(r) == r,
            final(self).slots().len() == old(self).slots().len(),
            forall|m: ModuleIdx| #[trigger] final(self).installed(m) == old(self).installed(m),
            forall|x: SymbolRef| #[trigger] final(self).valid_ref(x) ==> old(self).valid_ref(x) || x == r,
            old(self).grows_to(final(self)),
            final(self).local(owner).classic_data@.len() == old(self).local(owner).classic_data@.len() + 1,
            forall|m: ModuleIdx|
                m != owner && old(self).installed(m) ==> #[trigger] final(self).local(m) == old(self).local(m),
    {
        let sym = match &mut self.inner[owner.0] {
            Some(m) => {
                let id = m.classic_data.len();
                m.classic_data.push(SymbolRefDataClassic::fresh(name));
                SymbolRef { owner, symbol: SymbolId(id) }
            },
            None => vstd::pervasive::unreached(),
        };
        proof {
            assert forall|m: ModuleIdx| #[trigger] self.installed(m) == old(self).installed(m) by {
                if m.0 < self.slots().len() && m != owner {
                    assert(self.slots()[m.0 as int] == old(self).slots()[m.0 as int]);
                }
            }
            assert forall|x: SymbolRef| #[trigger] old(self).valid_ref(x) implies self.valid_ref(x)
                && self.data(x) == old(self).data(x) by {
                if x.owner != owner {
                    assert(self.slots()[x.owner.0 as int] == old(self).slots()[x.owner.0 as int]);
                }
            }
            assert forall|x: SymbolRef| #[trigger] self.valid_ref(x) implies old(self).valid_ref(x) || x == sym by {
                if x.owner != owner {
                    assert(self.slots()[x.owner.0 as int] == old(self).slots()[x.owner.0 as int]);
                }
            }
            reveal(SymbolRefDb::wf);
            assert forall|r: SymbolRef| #![trigger self.link_of(r)]
                self.valid_ref(r) && self.link_of(r) is Some implies {
                let p = self.link_of(r)->Some_0;
                &&& self.valid_ref(p)
                &&& self.rank_of(r) < self.rank_of(p)
                &&& self.rank_of(p) <= self.rank_bound()
            } by {
                if r != sym {
                    assert(old(self).valid_ref(r));
                    assert(old(self).link_of(r) == self.link_of(r));
                    let p = self.link_of(r)->Some_0;
                    assert(old(self).valid_ref(p));
                }
            }
            assert(self.wf());
            assert forall|x: SymbolRef| #[trigger]
                old(self).valid_ref(x) implies self.canonical(x) == old(self).canonical(x) by {
                old(self).lemma_canonical_frame(self, x);
            }
            self.lemma_canonical_props(sym);
            assert forall|m: ModuleIdx|
                m != owner && old(self).installed(m) implies #[trigger] self.local(m) == old(self).local(m) by {
                assert(self.slots()[m.0 as int] == old(self).slots()[m.0 as int]);
            }
        }
        sym
    }

    /// Tells whether a symbol table is installed for module `m`.
    pub fn is_installed(&self, m: ModuleIdx) -> (r: bool)
        ensures
            r == self.installed(m),
    {
        m.0 < self.inner.len() && self.inner[m.0].is_some()
    }

    /// The name given to the canonical symbol of `refer` in `canonical_names`
    /// (its first entry for that symbol), which must hold one.
    pub fn canonical_name_for<'name>(
        &self,
        refer: SymbolRef,
        canonical_names: &'name Vec<(SymbolRef, String)>,
    ) -> (r: &'name String)
        requires
            self.wf(),
            self.valid_ref(refer),
            exists|i: int|
                0 <= i < canonical_names@.len() && (#[trigger] canonical_names@[i]).0 == self.canonical(
                    refer,
                ),
        ensures
            exists|i: int|
                0 <= i < canonical_names@.len() && (#[trigger] canonical_names@[i]).0 == self.canonical(
                    refer,
                ) && *r == canonical_names@[i].1 && forall|j: int|
                    0 <= j < i ==> canonical_names@[j].0 != self.canonical(refer),
    {
        let canonical_ref = self.canonical_ref_for(refer);
        let mut i: usize = 0;
        while i < canonical_names.len()
            invariant
                canonical_ref == self.canonical(refer),
                i <= canonical_names@.len(),
                forall|j: int| 0 <= j < i ==> canonical_names@[j].0 != canonical_ref,
                exists|k: int|
                    0 <= k < canonical_names@.len() && (#[trigger] canonical_names@[k]).0 == canonical_ref,
            decreases canonical_names@.len() - i,
        {
            if canonical_names[i].0 == canonical_ref {
                return &canonical_names[i].1;
            }
            i = i + 1;
        }
        vstd::pervasive::unreached()
    }

    /// The link-time flags recorded for `refer`, if any.
    pub fn get_flags(&self, refer: SymbolRef) -> (r: Option<&SymbolRefFlags>)
        requires
            self.installed(refer.owner),
        ensures
            r == match self.local(refer.owner).flags@.contains_key(refer.symbol.0) {
                true => Some(&self.local(refer.owner).flags@[refer.symbol.0]),
                false => None::<&SymbolRefFlags>,
            },
    {
        match &self.inner[refer.owner.0] {
            Some(m) => m.flags.get(&refer.symbol.0),
            None => vstd::pervasive::unreached(),
        }
    }
}

/// Growth is transitive.
pub proof fn lemma_grows_to_trans(a: &SymbolRefDb, b: &SymbolRefDb, c: &SymbolRefDb)
    requires
        a.grows_to(b),
        b.grows_to(c),
    ensures
        a.grows_to(c),
{
    assert forall|x: SymbolRef| #[trigger] a.valid_ref(x) implies c.valid_ref(x) && c.data(x) == a.data(x)
        && c.canonical(x) == a.canonical(x) by {
        assert(b.valid_ref(x));
    }
}

/// State `i + 1` is what `link` left from state `i` on the `i`-th pair.
pub open spec fn link_chain_step(states: Seq<SymbolRefDb>, pairs: Seq<(SymbolRef, SymbolRef)>, i: int) -> bool {
    &&& states[i].valid_ref(pairs[i].0)
    &&& states[i].valid_ref(pairs[i].1)
    &&& states[i].link_step(&states[i + 1], pairs[i].0, pairs[i].1)
}

/// Over any sequence of `link` calls, every pair that was linked ends in one class.
pub proof fn lemma_link_sequence_joins(states: Seq<SymbolRefDb>, pairs: Seq<(SymbolRef, SymbolRef)>)
    requires
        states.len() == pairs.len() + 1,
        states[0].wf(),
        forall|i: int| 0 <= i < pairs.len() ==> #[trigger] link_chain_step(states, pairs, i),
    ensures
        forall|i: int|
            0 <= i < pairs.len() ==> states.last().canonical(#[trigger] pairs[i].0) == states.last().canonical(
                pairs[i].1,
            ),
{
    lemma_link_prefix_joins(states, pairs, pairs.len() as int);
}

proof fn lemma_link_prefix_joins(states: Seq<SymbolRefDb>, pairs: Seq<(SymbolRef, SymbolRef)>, j: int)
    requires
        states.len() == pairs.len() + 1,
        0 <= j <= pairs.len(),
        states[0].wf(),
        forall|i: int| 0 <= i < pairs.len() ==> #[trigger] link_chain_step(states, pairs, i),
    ensures
        states[j].wf(),
        forall|i: int|
            0 <= i < j ==> states[j].valid_ref(#[trigger] pairs[i].0) && states[j].valid_ref(pairs[i].1)
                && states[j].canonical(pairs[i].0) == states[j].canonical(pairs[i].1),
    decreases j,
{
    if j > 0 {
        lemma_link_prefix_joins(states, pairs, j - 1);
        let pre = states[j - 1];
        let post = states[j];
        assert(link_chain_step(states, pairs, j - 1));
        lemma_link_joins(&pre, pairs[j - 1].0, pairs[j - 1].1);
        assert forall|i: int| 0 <= i < j implies post.valid_ref(#[trigger] pairs[i].0) && post.valid_ref(
            pairs[i].1,
        ) && post.canonical(pairs[i].0) == post.canonical(pairs[i].1) by {
            if i < j - 1 {
                assert(pre.valid_ref(pairs[i].0) && pre.valid_ref(pairs[i].1));
                assert(pre.canonical(pairs[i].0) == pre.canonical(pairs[i].1));
            }
        }
    }
}

/// Canonicalizing is idempotent: the canonical symbol of a canonical symbol is itself.
pub proof fn lemma_canonical_idempotent(db: &SymbolRefDb, s: SymbolRef)
    requires
        db.wf(),
        db.valid_ref(s),
    ensures
        db.canonical(db.canonical(s)) == db.canonical(s),
{
    db.lemma_canonical_props(s);
    db.lemma_canonical_props(db.canonical(s));
}

/// A symbol without a link is its own canonical symbol, and every canonical
/// symbol is an existing symbol without a link.
pub proof fn lemma_unlinked_is_canonical(db: &SymbolRefDb, s: SymbolRef)
    requires
        db.wf(),
        db.valid_ref(s),
    ensures
        db.is_root(s) ==> db.canonical(s) == s,
        db.valid_ref(db.canonical(s)),
        db.is_root(db.canonical(s)),
{
    db.lemma_canonical_props(s);
}

/// After `link(a, b)` the two symbols share one canonical symbol, that of `b`.
pub proof fn lemma_link_joins(db: &SymbolRefDb, a: SymbolRef, b: SymbolRef)
    requires
        db.wf(),
        db.valid_ref(a),
        db.valid_ref(b),
    ensures
        db.merged(a, b, a) == db.merged(a, b, b),
        db.merged(a, b, b) == db.canonical(b),
{
}

/// Linking a symbol with itself changes no canonical symbol.
pub proof fn lemma_link_self_is_noop(db: &SymbolRefDb, a: SymbolRef, x: SymbolRef)
    requires
        db.wf(),
        db.valid_ref(a),
        db.valid_ref(x),
    ensures
        db.merged(a, a, x) == db.canonical(x),
{
}

/// Repeating `link(a, b)` on the result of `link(a, b)` changes no canonical symbol.
pub proof fn lemma_link_twice_is_noop(db: &SymbolRefDb, post: &SymbolRefDb, a: SymbolRef, b: SymbolRef)
    requires
        db.wf(),
        db.valid_ref(a),
        db.valid_ref(b),
        db.grows_to(post),
        forall|x: SymbolRef| #[trigger] db.valid_ref(x) ==> post.canonical(x) == db.merged(a, b, x),
    ensures
        forall|x: SymbolRef| #[trigger] db.valid_ref(x) ==> post.merged(a, b, x) == post.canonical(x),
{
    assert(post.canonical(a) == post.canonical(b));
}

} // verus!
