use vstd::prelude::*;

use crate::symbol_ref_db::SymbolRefDb;
use crate::types::{AstIdx, ModuleIdx, Span, SymbolId, SymbolRef};

verus! {

/// How a module exposes its exports.
#[derive(Clone, Copy, Debug, PartialEq, Eq, Structural)]
pub enum ExportsKind {
    Esm,
    CommonJs,
    /// Not yet decided: the module neither imports nor exports.
    Unknown,
}

/// The kind of source a module was loaded from.
#[derive(Clone, Copy, Debug, PartialEq, Eq, Structural)]
pub enum ModuleType {
    Js,
    Jsx,
    Ts,
    Tsx,
    Json,
    Text,
    Css,
}

/// Bit set of synthetic bindings a module's AST refers to.
#[derive(Clone, Copy, Debug, PartialEq, Eq, Structural)]
pub struct EcmaModuleAstUsage {
    pub bits: u8,
}

impl EcmaModuleAstUsage {
    /// The AST refers to the `module` object.
    pub const MODULE_REF: u8 = 1;
    /// The AST refers to the `exports` object.
    pub const EXPORTS_REF: u8 = 2;

    pub open spec fn has(self, flag: u8) -> bool {
        self.bits & flag == flag
    }

    pub fn contains(&self, flag: u8) -> (r: bool)
        ensures
            r == self.has(flag),
    {
        self.bits & flag == flag
    }

    /// Adds `flag`, keeping every flag already set.
    pub fn insert(&mut self, flag: u8)
        ensures
            final(self).bits == old(self).bits | flag,
            final(self).has(flag),
            forall|g: u8| old(self).has(g) ==> final(self).has(g),
    {
        let b = self.bits;
        self.bits = b | flag;
        assert((b | flag) & flag == flag) by (bit_vector);
        assert forall|g: u8| b & g == g implies (b | flag) & g == g by {
            assert(b & g == g ==> (b | flag) & g == g) by (bit_vector);
        }
    }
}

/// A named export of a module: where it was written and the local symbol it exposes.
#[derive(Clone, Copy, Debug, PartialEq, Eq, Structural)]
pub struct LocalExport {
    pub span: Span,
    pub referenced: SymbolRef,
}

/// Bookkeeping of one top-level statement for tree shaking.
#[derive(Clone, Debug)]
pub struct StmtInfo {
    pub side_effect: bool,
    pub declared_symbols: Vec<SymbolRef>,
}

/// One record per top-level statement; index 0 is the namespace binding.
#[derive(Clone, Debug)]
pub struct StmtInfos {
    pub infos: Vec<StmtInfo>,
}

impl StmtInfos {
    /// Records that statement `idx` declares `symbol`.
    pub fn declare_symbol_for_stmt(&mut self, idx: usize, symbol: SymbolRef)
        requires
            idx < old(self).infos@.len(),
        ensures
            final(self).infos@.len() == old(self).infos@.len(),
            forall|i: int|
                0 <= i < old(self).infos@.len() && i != idx ==> final(self).infos@[i] == old(
                    self,
                ).infos@[i],
            final(self).infos@[idx as int].side_effect == old(self).infos@[idx as int].side_effect,
            final(self).infos@[idx as int].declared_symbols@ == old(
                self,
            ).infos@[idx as int].declared_symbols@.push(symbol),
    {
        self.infos[idx].declared_symbols.push(symbol);
    }
}

/// Facts the scan stage computed about a module.
#[derive(Clone, Copy, Debug, PartialEq, Eq, Structural)]
pub struct ModuleMeta {
    pub lazy_export: bool,
}

impl ModuleMeta {
    pub fn has_lazy_export(&self) -> (r: bool)
        ensures
            r == self.lazy_export,
    {
        self.lazy_export
    }
}

/// Key of an object literal property.
#[derive(Debug)]
pub enum PropertyKey {
    StringLiteral(String),
    Computed,
}

/// An expression; anything that is not an object literal is kept as its source text.
#[derive(Debug)]
pub enum Expression {
    Object(Vec<ObjectPropertyKind>),
    Source(String),
}

/// A member of an object literal.
#[derive(Debug)]
pub enum ObjectPropertyKind {
    ObjectProperty(PropertyKey, Expression),
    SpreadProperty(Expression),
}

/// A top-level statement.
#[derive(Debug)]
pub enum Statement {
    /// `expr;`
    ExpressionStatement(Expression),
    /// `module.exports = expr;`
    ModuleExportsAssignment(Expression),
    /// `export default expr;`
    ExportDefaultExpression(Expression),
    /// `export const name = expr;`
    ExportNamedConst(String, Expression),
    /// Any other statement, as source text.
    Source(String),
}

#[derive(Debug)]
pub struct Program {
    pub body: Vec<Statement>,
}

#[derive(Debug)]
pub struct EcmaAst {
    pub program: Program,
}

/// A module parsed as JavaScript-like source.
#[derive(Debug)]
pub struct NormalModule {
    pub idx: ModuleIdx,
    pub exports_kind: ExportsKind,
    pub module_type: ModuleType,
    pub named_exports: Vec<(String, LocalExport)>,
    pub default_export_ref: SymbolRef,
    pub namespace_object_ref: SymbolRef,
    pub stmt_infos: StmtInfos,
    pub ast_usage: EcmaModuleAstUsage,
    pub meta: ModuleMeta,
    pub ast_idx: AstIdx,
}

impl NormalModule {
    pub fn ecma_ast_idx(&self) -> (r: AstIdx)
        ensures
            r == self.ast_idx,
    {
        self.ast_idx
    }
}

/// A module left outside the bundle.
#[derive(Debug)]
pub struct ExternalModule {
    pub idx: ModuleIdx,
    pub id: String,
}

#[derive(Debug)]
pub enum Module {
    Normal(NormalModule),
    External(ExternalModule),
}

#[derive(Debug)]
pub struct ModuleTable {
    pub modules: Vec<Module>,
}

/// The tables the link stage owns.
pub struct LinkStage {
    pub module_table: ModuleTable,
    pub ast_table: Vec<(EcmaAst, ModuleIdx)>,
    pub symbols: SymbolRefDb,
}

/// The `export const` statements a JSON object literal turns into: one per
/// property with a string key, in source order; other properties are dropped.
pub open spec fn json_export_stmts(props: Seq<ObjectPropertyKind>) -> Seq<Statement>
    decreases props.len(),
{
    if props.len() == 0 {
        Seq::empty()
    } else {
        let head = match props[0] {
            ObjectPropertyKind::ObjectProperty(PropertyKey::StringLiteral(k), v) => seq![
                Statement::ExportNamedConst(k, v),
            ],
            _ => Seq::empty(),
        };
        head + json_export_stmts(props.subrange(1, props.len() as int))
    }
}

/// The string keys of an object literal's properties, in source order.
pub open spec fn string_keys(props: Seq<ObjectPropertyKind>) -> Seq<Seq<char>>
    decreases props.len(),
{
    if props.len() == 0 {
        Seq::empty()
    } else {
        let head = match props[0] {
            ObjectPropertyKind::ObjectProperty(PropertyKey::StringLiteral(k), _) => seq![k@],
            _ => Seq::empty(),
        };
        head + string_keys(props.subrange(1, props.len() as int))
    }
}

pub open spec fn json_exports_of(e: Expression) -> Seq<Statement> {
    match e {
        Expression::Object(props) => json_export_stmts(props@),
        Expression::Source(_) => Seq::empty(),
    }
}

/// The body of a lazy module after materialization, from its body before.
pub open spec fn lazy_body(kind: ExportsKind, is_json: bool, body: Seq<Statement>) -> Seq<Statement> {
    let e = body[0]->ExpressionStatement_0;
    if kind == ExportsKind::CommonJs {
        body.update(0, Statement::ModuleExportsAssignment(e))
    } else if is_json {
        json_exports_of(e)
    } else {
        body.update(0, Statement::ExportDefaultExpression(e))
    }
}

/// The statements an object literal turns into; see `json_export_stmts`.
pub fn json_object_to_exports(expr: Expression) -> (r: Vec<Statement>)
    ensures
        r@ == json_exports_of(expr),
{
    let mut props = match expr {
        Expression::Object(ps) => ps,
        Expression::Source(_) => {
            return Vec::new();
        },
    };
    let ghost orig = props@;
    let mut out: Vec<Statement> = Vec::new();
    while props.len() > 0
        invariant
            json_export_stmts(orig) == out@ + json_export_stmts(props@),
        decreases props@.len(),
    {
        let ghost before = props@;
        let p = props.remove(0);
        assert(props@ =~= before.subrange(1, before.len() as int));
        let ghost out_before = out@;
        match p {
            ObjectPropertyKind::ObjectProperty(PropertyKey::StringLiteral(k), v) => {
                out.push(Statement::ExportNamedConst(k, v));
            },
            _ => {},
        }
        assert(out_before + json_export_stmts(before) =~= out@ + json_export_stmts(props@));
    }
    assert(out@ + json_export_stmts(props@) =~= out@);
    out
}

/// The string keys of the object literal that forms the first statement of a
/// JSON module; empty when the body has another shape.
pub fn extract_object_properties_from_json_like_ast(ast: &EcmaAst) -> (r: Vec<String>)
    ensures
        r@.map_values(|s: String| s@) == json_keys_of(ast.program.body@),
{
    if ast.program.body.len() == 0 {
        return Vec::new();
    }
    let props = match &ast.program.body[0] {
        Statement::ExpressionStatement(Expression::Object(props)) => props,
        _ => {
            return Vec::new();
        },
    };
    let mut out: Vec<String> = Vec::new();
    let mut i: usize = 0;
    assert(props@.subrange(0, props@.len() as int) =~= props@);
    assert(out@.map_values(|s: String| s@) + string_keys(props@) =~= string_keys(props@));
    while i < props.len()
        invariant
            i <= props@.len(),
            string_keys(props@) == out@.map_values(|s: String| s@) + string_keys(props@.subrange(i as int, props@.len() as int)),
        decreases props@.len() - i,
    {
        let ghost out_before = out@;
        let ghost rest = props@.subrange(i as int, props@.len() as int);
        assert(rest.subrange(1, rest.len() as int) =~= props@.subrange(i + 1, props@.len() as int));
        match &props[i] {
            ObjectPropertyKind::ObjectProperty(PropertyKey::StringLiteral(k), _) => {
                out.push(k.clone());
            },
            _ => {},
        }
        assert(out_before.map_values(|s: String| s@) + string_keys(rest) =~= out@.map_values(|s: String| s@) + string_keys(props@.subrange(i + 1, props@.len() as int)));
        i = i + 1;
    }
    assert(out@.map_values(|s: String| s@) + string_keys(props@.subrange(i as int, props@.len() as int)) =~= out@.map_values(|s: String| s@));
    out
}

/// Rewrites the body of a lazy module in place; see `lazy_body`.
pub fn rewrite_lazy_body(body: &mut Vec<Statement>, exports_kind: ExportsKind, is_json: bool)
    requires
        old(body)@.len() >= 1,
        old(body)@[0] is ExpressionStatement,
    ensures
        final(body)@ == lazy_body(exports_kind, is_json, old(body)@),
{
    let ghost pre = body@;
    let first = body.remove(0);
    let expr = match first {
        Statement::ExpressionStatement(e) => e,
        _ => vstd::pervasive::unreached(),
    };
    if exports_kind == ExportsKind::CommonJs {
        body.insert(0, Statement::ModuleExportsAssignment(expr));
        assert(body@ =~= pre.update(0, Statement::ModuleExportsAssignment(pre[0]->ExpressionStatement_0)));
    } else if is_json {
        *body = json_object_to_exports(expr);
    } else {
        body.insert(0, Statement::ExportDefaultExpression(expr));
        assert(body@ =~= pre.update(0, Statement::ExportDefaultExpression(pre[0]->ExpressionStatement_0)));
    }
}

pub open spec fn is_lazy(m: Module) -> bool {
    m is Normal && m->Normal_0.meta.lazy_export
}

/// Fields that materialization never changes.
pub open spec fn same_identity(a: NormalModule, b: NormalModule) -> bool {
    &&& b.idx == a.idx
    &&& b.exports_kind == a.exports_kind
    &&& b.module_type == a.module_type
    &&& b.default_export_ref == a.default_export_ref
    &&& b.namespace_object_ref == a.namespace_object_ref
    &&& b.meta == a.meta
    &&& b.ast_idx == a.ast_idx
}

/// `"default"`, exposing the default export symbol, follows the exports the module had.
pub open spec fn default_registered(a: NormalModule, b: NormalModule) -> bool {
    let n = a.named_exports@.len() as int;
    &&& b.named_exports@.len() >= n + 1
    &&& b.named_exports@.subrange(0, n) == a.named_exports@
    &&& b.named_exports@[n].0@ == "default"@
    &&& b.named_exports@[n].1 == LocalExport {
        span: Span { start: 0, end: 0 },
        referenced: a.default_export_ref,
    }
}

/// From position `from` on, the named exports are the `keys`, each exposing the
/// symbol of `owner` numbered `n0` plus its position among the keys.
pub open spec fn key_exports_added(
    b: NormalModule,
    from: int,
    keys: Seq<Seq<char>>,
    owner: ModuleIdx,
    n0: int,
) -> bool {
    &&& b.named_exports@.len() == from + keys.len()
    &&& forall|j: int|
        0 <= j < keys.len() ==> (#[trigger] b.named_exports@[from + j]).0@ == keys[j]
            && b.named_exports@[from + j].1 == LocalExport {
            span: Span { start: 0, end: 0 },
            referenced: SymbolRef { owner, symbol: SymbolId((n0 + j) as usize) },
        }
}

/// The string keys of the object literal that forms the first statement of a body.
pub open spec fn json_keys_of(body: Seq<Statement>) -> Seq<Seq<char>> {
    if body.len() > 0 && body[0] is ExpressionStatement && body[0]->ExpressionStatement_0 is Object {
        string_keys(body[0]->ExpressionStatement_0->Object_0@)
    } else {
        Seq::empty()
    }
}

/// A CommonJS module uses the `module` object; others keep their usage.
pub open spec fn usage_updated(a: NormalModule, b: NormalModule) -> bool {
    if a.exports_kind == ExportsKind::CommonJs {
        b.ast_usage.bits == a.ast_usage.bits | EcmaModuleAstUsage::MODULE_REF
    } else {
        b.ast_usage == a.ast_usage
    }
}

/// Statement 1 declares the default export symbol (but in JSON modules) and, in
/// a CommonJS module, has a side effect; every other record is kept.
pub open spec fn stmt_infos_marked(a: NormalModule, b: NormalModule) -> bool {
    let ai = a.stmt_infos.infos@;
    let bi = b.stmt_infos.infos@;
    &&& bi.len() == ai.len()
    &&& forall|k: int| 0 <= k < ai.len() && k != 1 ==> bi[k] == ai[k]
    &&& bi[1].declared_symbols@ == if a.module_type == ModuleType::Json {
        ai[1].declared_symbols@
    } else {
        ai[1].declared_symbols@.push(a.default_export_ref)
    }
    &&& bi[1].side_effect == (ai[1].side_effect || a.exports_kind == ExportsKind::CommonJs)
}

/// The per-module part of materialization.
pub open spec fn lazy_meta_done(a: NormalModule, b: NormalModule) -> bool {
    &&& same_identity(a, b)
    &&& default_registered(a, b)
    &&& b.named_exports@.len() == a.named_exports@.len() + 1
    &&& usage_updated(a, b)
    &&& stmt_infos_marked(a, b)
}

/// A JSON module turned into ES exports keeps only the namespace record.
pub open spec fn rewrites_json(a: NormalModule) -> bool {
    a.module_type == ModuleType::Json && a.exports_kind != ExportsKind::CommonJs
}

/// A lazy module after the whole pass, from the module before it, the keys of
/// its JSON object, its index and the number of symbols it had.
pub open spec fn lazy_module_done(
    a: NormalModule,
    b: NormalModule,
    keys: Seq<Seq<char>>,
    owner: ModuleIdx,
    n0: int,
) -> bool {
    &&& same_identity(a, b)
    &&& default_registered(a, b)
    &&& usage_updated(a, b)
    &&& if rewrites_json(a) {
        &&& b.stmt_infos.infos@ == seq![a.stmt_infos.infos@[0]]
        &&& key_exports_added(b, a.named_exports@.len() + 1 as int, keys, owner, n0)
    } else {
        &&& stmt_infos_marked(a, b)
        &&& b.named_exports@.len() == a.named_exports@.len() + 1
    }
}

/// Registers the default export of a lazy module and marks its statement records.
pub fn materialize_lazy_meta(module: &mut NormalModule)
    requires
        old(module).stmt_infos.infos@.len() >= 2,
    ensures
        lazy_meta_done(*old(module), *final(module)),
{
    let default_symbol_ref = module.default_export_ref;
    module.named_exports.push(
        ("default".to_owned(), LocalExport { span: Span::empty(), referenced: default_symbol_ref }),
    );
    let is_json = module.module_type == ModuleType::Json;
    if !is_json {
        module.stmt_infos.declare_symbol_for_stmt(1, default_symbol_ref);
    }
    if module.exports_kind == ExportsKind::CommonJs {
        module.stmt_infos.infos[1].side_effect = true;
        module.ast_usage.insert(EcmaModuleAstUsage::MODULE_REF);
    }
    proof {
        let a = *old(module);
        let b = *module;
        assert(b.named_exports@.subrange(0, a.named_exports@.len() as int) =~= a.named_exports@);
    }
}

/// Module `k` (as the AST entry `j` names it) is a lazy module whose AST is entry `j`.
pub open spec fn owned_by_lazy(modules: Seq<Module>, asts: Seq<(EcmaAst, ModuleIdx)>, j: int) -> bool {
    let k = asts[j].1.0 as int;
    &&& k < modules.len()
    &&& is_lazy(modules[k])
    &&& modules[k]->Normal_0.ast_idx.0 == j
}

/// A lazy module's AST entry, as the scan stage leaves it.
pub open spec fn lazy_shape_ok(
    modules: Seq<Module>,
    asts: Seq<(EcmaAst, ModuleIdx)>,
    i: int,
) -> bool {
    let m = modules[i]->Normal_0;
    &&& forall|t: int| 0 <= t < m.named_exports@.len() ==> (#[trigger] m.named_exports@[t]).0@ != "default"@
    &&& m.stmt_infos.infos@.len() >= 2
    &&& m.ast_idx.0 < asts.len()
    &&& asts[m.ast_idx.0 as int].1.0 == i
    &&& asts[m.ast_idx.0 as int].0.program.body@.len() >= 1
    &&& asts[m.ast_idx.0 as int].0.program.body@[0] is ExpressionStatement
}

impl LinkStage {
    /// Every lazy module has statement records for the namespace binding and for
    /// its body, and owns an AST entry whose first statement is an expression statement.
    pub open spec fn lazy_ready(&self) -> bool {
        forall|i: int|
            0 <= i < self.module_table.modules@.len() && #[trigger] is_lazy(self.module_table.modules@[i])
                ==> {
                &&& lazy_shape_ok(self.module_table.modules@, self.ast_table@, i)
                &&& rewrites_json(self.module_table.modules@[i]->Normal_0) ==> self.symbols.installed(
                    ModuleIdx(i as usize),
                )
            }
    }

    /// Tells whether `generate_lazy_export` may run on these tables.
    pub fn lazy_export_ready(&self) -> (r: bool)
        ensures
            r == self.lazy_ready(),
    {
        let n = self.module_table.modules.len();
        let mut i: usize = 0;
        while i < n
            invariant
                n == self.module_table.modules@.len(),
                i <= n,
                forall|k: int|
                    0 <= k < i && #[trigger] is_lazy(self.module_table.modules@[k]) ==> {
                        &&& lazy_shape_ok(self.module_table.modules@, self.ast_table@, k)
                        &&& rewrites_json(self.module_table.modules@[k]->Normal_0)
                            ==> self.symbols.installed(ModuleIdx(k as usize))
                    },
            decreases n - i,
        {
            match &self.module_table.modules[i] {
                Module::Normal(m) => {
                    if m.meta.has_lazy_export() {
                        proof {
                            assert(is_lazy(self.module_table.modules@[i as int]));
                        }
                        if m.stmt_infos.infos.len() < 2 {
                            return false;
                        }
                        let default_name = "default".to_owned();
                        let mut t: usize = 0;
                        while t < m.named_exports.len()
                            invariant
                                i < n,
                                n == self.module_table.modules@.len(),
                                self.module_table.modules@[i as int] is Normal,
                                self.module_table.modules@[i as int]->Normal_0 == *m,
                                is_lazy(self.module_table.modules@[i as int]),
                                t <= m.named_exports@.len(),
                                default_name@ == "default"@,
                                forall|u: int| 0 <= u < t ==> (#[trigger] m.named_exports@[u]).0@ != "default"@,
                            decreases m.named_exports@.len() - t,
                        {
                            if m.named_exports[t].0 == default_name {
                                proof {
                                    assert(m.named_exports@[t as int].0@ == "default"@);
                                    assert(!lazy_shape_ok(self.module_table.modules@, self.ast_table@, i as int));
                                }
                                return false;
                            }
                            t = t + 1;
                        }
                        let j = m.ast_idx.0;
                        if j >= self.ast_table.len() {
                            return false;
                        }
                        if self.ast_table[j].1.0 != i {
                            return false;
                        }
                        if self.ast_table[j].0.program.body.len() < 1 {
                            return false;
                        }
                        match &self.ast_table[j].0.program.body[0] {
                            Statement::ExpressionStatement(_) => {},
                            _ => {
                                return false;
                            },
                        }
                        if m.module_type == ModuleType::Json && m.exports_kind != ExportsKind::CommonJs
                            && !self.symbols.is_installed(ModuleIdx(i)) {
                            return false;
                        }
                    }
                },
                Module::External(_) => {},
            }
            i = i + 1;
        }
        true
    }
}

/// Turns the lazy JSON module `module_idx` into ES exports: its statement records
/// shrink to the namespace record, each string key of its object literal gets a
/// fresh symbol and a named export, and its body becomes one `export const` per key.
fn json_object_expr_to_esm(link_staged: &mut LinkStage, module_idx: ModuleIdx)
    requires
        module_idx.0 < old(link_staged).module_table.modules@.len(),
        old(link_staged).module_table.modules@[module_idx.0 as int] is Normal,
        old(link_staged).symbols.wf(),
        old(link_staged).symbols.installed(module_idx),
        ({
            let m = old(link_staged).module_table.modules@[module_idx.0 as int]->Normal_0;
            let asts = old(link_staged).ast_table@;
            &&& m.stmt_infos.infos@.len() >= 1
            &&& m.ast_idx.0 < asts.len()
            &&& asts[m.ast_idx.0 as int].0.program.body@.len() >= 1
            &&& asts[m.ast_idx.0 as int].0.program.body@[0] is ExpressionStatement
        }),
    ensures
        ({
            let om = old(link_staged).module_table.modules@;
            let nm = final(link_staged).module_table.modules@;
            let a = om[module_idx.0 as int]->Normal_0;
            let b = nm[module_idx.0 as int]->Normal_0;
            let oa = old(link_staged).ast_table@;
            let na = final(link_staged).ast_table@;
            &&& nm.len() == om.len()
            &&& forall|k: int| 0 <= k < om.len() && k != module_idx.0 ==> nm[k] == om[k]
            &&& nm[module_idx.0 as int] is Normal
            &&& same_identity(a, b)
            &&& b.ast_usage == a.ast_usage
            &&& b.named_exports@.subrange(0, a.named_exports@.len() as int) == a.named_exports@
            &&& key_exports_added(
                b,
                a.named_exports@.len() as int,
                json_keys_of(oa[a.ast_idx.0 as int].0.program.body@),
                module_idx,
                old(link_staged).symbols.local(module_idx).classic_data@.len() as int,
            )
            &&& b.stmt_infos.infos@ == seq![a.stmt_infos.infos@[0]]
            &&& na.len() == oa.len()
            &&& forall|j: int| 0 <= j < oa.len() && j != a.ast_idx.0 ==> na[j] == oa[j]
            &&& na[a.ast_idx.0 as int].1 == oa[a.ast_idx.0 as int].1
            &&& na[a.ast_idx.0 as int].0.program.body@ == lazy_body(
                ExportsKind::Esm,
                true,
                oa[a.ast_idx.0 as int].0.program.body@,
            )
        }),
        final(link_staged).symbols.wf(),
        old(link_staged).symbols.grows_to(&final(link_staged).symbols),
        forall|m: ModuleIdx| #[trigger]
            final(link_staged).symbols.installed(m) == old(link_staged).symbols.installed(m),
        forall|m: ModuleIdx|
            m != module_idx && old(link_staged).symbols.installed(m)
                ==> #[trigger] final(link_staged).symbols.local(m) == old(link_staged).symbols.local(m),
{
    let ghost om = link_staged.module_table.modules@;
    let ghost a = om[module_idx.0 as int]->Normal_0;
    let ghost n0 = link_staged.symbols.local(module_idx).classic_data@.len() as int;
    let ast_idx = match &link_staged.module_table.modules[module_idx.0] {
        Module::Normal(m) => m.ast_idx,
        Module::External(_) => vstd::pervasive::unreached(),
    };
    match &mut link_staged.module_table.modules[module_idx.0] {
        Module::Normal(m) => {
            m.stmt_infos.infos.truncate(1);
        },
        Module::External(_) => {},
    }
    let keys = extract_object_properties_from_json_like_ast(&link_staged.ast_table[ast_idx.0].0);
    let ghost kseq = json_keys_of(link_staged.ast_table@[ast_idx.0 as int].0.program.body@);
    let ghost start = a.named_exports@.len() as int;
    let mut j: usize = 0;
    while j < keys.len()
        invariant
            om == old(link_staged).module_table.modules@,
            module_idx.0 < om.len(),
            a == om[module_idx.0 as int]->Normal_0,
            n0 == old(link_staged).symbols.local(module_idx).classic_data@.len() as int,
            start == a.named_exports@.len() as int,
            kseq == json_keys_of(old(link_staged).ast_table@[a.ast_idx.0 as int].0.program.body@),
            j <= keys@.len(),
            keys@.map_values(|s: String| s@) == kseq,
            link_staged.module_table.modules@.len() == om.len(),
            forall|k: int| 0 <= k < om.len() && k != module_idx.0 ==> link_staged.module_table.modules@[k] == om[k],
            link_staged.module_table.modules@[module_idx.0 as int] is Normal,
            ({
                let b = link_staged.module_table.modules@[module_idx.0 as int]->Normal_0;
                &&& same_identity(a, b)
                &&& b.ast_usage == a.ast_usage
                &&& b.stmt_infos.infos@ == seq![a.stmt_infos.infos@[0]]
                &&& b.named_exports@.subrange(0, start) == a.named_exports@
                &&& key_exports_added(b, start, kseq.subrange(0, j as int), module_idx, n0)
            }),
            link_staged.ast_table == old(link_staged).ast_table,
            ast_idx == a.ast_idx,
            link_staged.symbols.wf(),
            link_staged.symbols.installed(module_idx),
            link_staged.symbols.local(module_idx).classic_data@.len() == n0 + j,
            old(link_staged).symbols.grows_to(&link_staged.symbols),
            forall|m: ModuleIdx| #[trigger]
                link_staged.symbols.installed(m) == old(link_staged).symbols.installed(m),
            forall|m: ModuleIdx|
                m != module_idx && old(link_staged).symbols.installed(m) ==> #[trigger] link_staged.symbols.local(m)
                    == old(link_staged).symbols.local(m),
        decreases keys@.len() - j,
    {
        let ghost sym_before = link_staged.symbols;
        let name = keys[j].clone();
        let r = SymbolRefDb::create_symbol(&mut link_staged.symbols, module_idx, name);
        proof {
            crate::symbol_ref_db::lemma_grows_to_trans(&old(link_staged).symbols, &sym_before, &link_staged.symbols);
        }
        let ghost before = link_staged.module_table.modules@[module_idx.0 as int]->Normal_0;
        match &mut link_staged.module_table.modules[module_idx.0] {
            Module::Normal(m) => {
                m.named_exports.push((keys[j].clone(), LocalExport { span: Span::empty(), referenced: r }));
            },
            Module::External(_) => {},
        }
        proof {
            let b = link_staged.module_table.modules@[module_idx.0 as int]->Normal_0;
            assert(b.named_exports@.subrange(0, start) =~= a.named_exports@) by {
                assert(before.named_exports@.subrange(0, start) == a.named_exports@);
            }
            let ks = kseq.subrange(0, j + 1);
            assert forall|t: int| 0 <= t < ks.len() implies (#[trigger] b.named_exports@[start + t]).0@ == ks[t]
                && b.named_exports@[start + t].1 == LocalExport {
                span: Span { start: 0, end: 0 },
                referenced: SymbolRef { owner: module_idx, symbol: SymbolId((n0 + t) as usize) },
            } by {
                if t < j {
                    assert(before.named_exports@[start + t] == b.named_exports@[start + t]);
                    assert(kseq.subrange(0, j as int)[t] == ks[t]);
                } else {
                    assert(keys@.map_values(|s: String| s@)[t] == keys@[t]@);
                }
            }
        }
        j = j + 1;
    }
    rewrite_lazy_body(&mut link_staged.ast_table[ast_idx.0].0.program.body, ExportsKind::Esm, true);
    proof {
        assert(kseq.subrange(0, j as int) =~= kseq);
    }
}

impl LinkStage {
    /// `b` is what the pass makes of the lazy module `k` of these tables.
    pub open spec fn lazy_done_at(&self, b: NormalModule, k: int) -> bool {
        let a = self.module_table.modules@[k]->Normal_0;
        lazy_module_done(
            a,
            b,
            json_keys_of(self.ast_table@[a.ast_idx.0 as int].0.program.body@),
            ModuleIdx(k as usize),
            self.symbols.local(ModuleIdx(k as usize)).classic_data@.len() as int,
        )
    }

    /// Materializes the exports of every lazy module. First each lazy module
    /// registers its `default` export and marks its statement records; then each
    /// one's AST is rewritten: `module.exports = e;` for CommonJS, one
    /// `export const` per string-keyed property for JSON, `export default e;` else.
    pub fn generate_lazy_export(&mut self)
        requires
            old(self).lazy_ready(),
            old(self).symbols.wf(),
        ensures
            final(self).symbols.wf(),
            old(self).symbols.grows_to(&final(self).symbols),
            forall|m: ModuleIdx| #[trigger] final(self).symbols.installed(m) == old(self).symbols.installed(m),
            final(self).module_table.modules@.len() == old(self).module_table.modules@.len(),
            forall|k: int|
                0 <= k < old(self).module_table.modules@.len() ==> {
                    let a = old(self).module_table.modules@[k];
                    let b = #[trigger] final(self).module_table.modules@[k];
                    if is_lazy(a) {
                        b is Normal && old(self).lazy_done_at(b->Normal_0, k)
                    } else {
                        b == a
                    }
                },
            final(self).ast_table@.len() == old(self).ast_table@.len(),
            forall|j: int|
                0 <= j < old(self).ast_table@.len() ==> {
                    let oa = old(self).ast_table@[j];
                    let na = #[trigger] final(self).ast_table@[j];
                    &&& na.1 == oa.1
                    &&& if owned_by_lazy(old(self).module_table.modules@, old(self).ast_table@, j) {
                        let m = old(self).module_table.modules@[oa.1.0 as int]->Normal_0;
                        na.0.program.body@ == lazy_body(
                            m.exports_kind,
                            m.module_type == ModuleType::Json,
                            oa.0.program.body@,
                        )
                    } else {
                        na == oa
                    }
                },
    {
        let n = self.module_table.modules.len();
        let mut i: usize = 0;
        while i < n
            invariant
                n == self.module_table.modules@.len(),
                n == old(self).module_table.modules@.len(),
                i <= n,
                self.ast_table == old(self).ast_table,
                self.symbols == old(self).symbols,
                old(self).lazy_ready(),
                forall|k: int|
                    0 <= k < n ==> {
                        let a = old(self).module_table.modules@[k];
                        let b = #[trigger] self.module_table.modules@[k];
                        if k < i && is_lazy(a) {
                            b is Normal && lazy_meta_done(a->Normal_0, b->Normal_0)
                        } else {
                            b == a
                        }
                    },
            decreases n - i,
        {
            proof {
                assert(is_lazy(old(self).module_table.modules@[i as int]) ==> lazy_shape_ok(
                    old(self).module_table.modules@,
                    old(self).ast_table@,
                    i as int,
                ));
            }
            match &mut self.module_table.modules[i] {
                Module::Normal(m) => {
                    if m.meta.has_lazy_export() {
                        materialize_lazy_meta(m);
                    }
                },
                Module::External(_) => {},
            }
            i = i + 1;
        }
        let ghost mid = self.module_table.modules@;
        i = 0;
        while i < n
            invariant
                n == self.module_table.modules@.len(),
                n == old(self).module_table.modules@.len(),
                i <= n,
                self.ast_table@.len() == old(self).ast_table@.len(),
                old(self).lazy_ready(),
                old(self).symbols.wf(),
                self.symbols.wf(),
                old(self).symbols.grows_to(&self.symbols),
                forall|m: ModuleIdx| #[trigger] self.symbols.installed(m) == old(self).symbols.installed(m),
                forall|k: int|
                    i <= k < n && old(self).symbols.installed(ModuleIdx(k as usize))
                        ==> #[trigger] self.symbols.local(ModuleIdx(k as usize)) == old(
                        self,
                    ).symbols.local(ModuleIdx(k as usize)),
                forall|k: int|
                    0 <= k < n ==> {
                        let a = old(self).module_table.modules@[k];
                        let b = #[trigger] self.module_table.modules@[k];
                        if is_lazy(a) {
                            b is Normal && if k < i {
                                old(self).lazy_done_at(b->Normal_0, k)
                            } else {
                                lazy_meta_done(a->Normal_0, b->Normal_0)
                            }
                        } else {
                            b == a
                        }
                    },
                forall|j: int|
                    0 <= j < old(self).ast_table@.len() ==> {
                        let oa = old(self).ast_table@[j];
                        let na = #[trigger] self.ast_table@[j];
                        &&& na.1 == oa.1
                        &&& if owned_by_lazy(old(self).module_table.modules@, old(self).ast_table@, j)
                            && oa.1.0 < i {
                            let m = old(self).module_table.modules@[oa.1.0 as int]->Normal_0;
                            na.0.program.body@ == lazy_body(
                                m.exports_kind,
                                m.module_type == ModuleType::Json,
                                oa.0.program.body@,
                            )
                        } else {
                            na == oa
                        }
                    },
            decreases n - i,
        {
            let ghost om = old(self).module_table.modules@;
            let ghost oast = old(self).ast_table@;
            proof {
                assert(is_lazy(om[i as int]) ==> lazy_shape_ok(om, oast, i as int));
            }
            let (lazy, kind, is_json, ast_idx) = match &self.module_table.modules[i] {
                Module::Normal(m) => (
                    m.meta.has_lazy_export(),
                    m.exports_kind,
                    m.module_type == ModuleType::Json,
                    m.ast_idx,
                ),
                Module::External(_) => (false, ExportsKind::Unknown, false, AstIdx(0)),
            };
            if lazy {
                let ghost j = ast_idx.0 as int;
                proof {
                    assert(is_lazy(om[i as int]));
                    assert(owned_by_lazy(om, oast, j));
                    assert(self.ast_table@[j] == oast[j]);
                }
                let ghost m1 = self.module_table.modules@[i as int]->Normal_0;
                let ghost a = om[i as int]->Normal_0;
                if kind == ExportsKind::CommonJs || !is_json {
                    rewrite_lazy_body(&mut self.ast_table[ast_idx.0].0.program.body, kind, is_json);
                } else {
                    proof {
                        lemma_rewrites_json_installed(old(self), i as int);
                    }
                    json_object_expr_to_esm(self, ModuleIdx(i));
                    proof {
                        let b = self.module_table.modules@[i as int]->Normal_0;
                        let na = a.named_exports@.len() as int;
                        assert(m1.named_exports@.subrange(0, na) == a.named_exports@);
                        assert(b.named_exports@.subrange(0, na + 1) == m1.named_exports@);
                        assert(b.named_exports@.subrange(0, na) =~= a.named_exports@) by {
                            assert forall|t: int| 0 <= t < na implies b.named_exports@[t] == a.named_exports@[t] by {
                                assert(b.named_exports@.subrange(0, na + 1)[t] == m1.named_exports@[t]);
                                assert(m1.named_exports@.subrange(0, na)[t] == a.named_exports@[t]);
                            }
                        }
                        assert(b.named_exports@[na] == m1.named_exports@[na]) by {
                            assert(b.named_exports@.subrange(0, na + 1)[na] == m1.named_exports@[na]);
                        }
                        assert(m1.stmt_infos.infos@[0] == a.stmt_infos.infos@[0]);
                        assert(old(self).lazy_done_at(b, i as int));
                    }
                }
                proof {
                    assert forall|jj: int| 0 <= jj < oast.len() && jj != j implies
                        !(owned_by_lazy(om, oast, jj) && oast[jj].1.0 == i) by {}
                }
            }
            i = i + 1;
        }
    }
}

/// After materialization a lazy module exports `"default"` as its default export symbol.
pub proof fn lemma_default_export_registered(
    a: NormalModule,
    b: NormalModule,
    keys: Seq<Seq<char>>,
    owner: ModuleIdx,
    n0: int,
)
    requires
        lazy_module_done(a, b, keys, owner, n0),
    ensures
        exists|i: int|
            0 <= i < b.named_exports@.len() && (#[trigger] b.named_exports@[i]).0@ == "default"@
                && b.named_exports@[i].1.referenced == a.default_export_ref,
{
    let i = a.named_exports@.len() as int;
    assert(b.named_exports@[i].0@ == "default"@);
}

/// After materialization a lazy CommonJS module's body statement has a side
/// effect and the module uses the `module` object.
pub proof fn lemma_commonjs_marked(
    a: NormalModule,
    b: NormalModule,
    keys: Seq<Seq<char>>,
    owner: ModuleIdx,
    n0: int,
)
    requires
        lazy_module_done(a, b, keys, owner, n0),
        a.exports_kind == ExportsKind::CommonJs,
        a.stmt_infos.infos@.len() >= 2,
    ensures
        b.stmt_infos.infos@[1].side_effect,
        b.ast_usage.has(EcmaModuleAstUsage::MODULE_REF),
{
    let x = a.ast_usage.bits;
    assert((x | 1u8) & 1u8 == 1u8) by (bit_vector);
}

/// A JSON object literal yields one export per string-keyed property.
pub proof fn lemma_json_exports_count(props: Seq<ObjectPropertyKind>)
    ensures
        json_export_stmts(props).len() == string_keys(props).len(),
    decreases props.len(),
{
    if props.len() > 0 {
        lemma_json_exports_count(props.subrange(1, props.len() as int));
    }
}

/// A lazy body of one expression statement becomes exactly one statement, or,
/// for JSON turned into ES exports, one statement per string-keyed property.
pub proof fn lemma_lazy_body_len(kind: ExportsKind, is_json: bool, body: Seq<Statement>)
    requires
        body.len() == 1,
        body[0] is ExpressionStatement,
    ensures
        kind == ExportsKind::CommonJs || !is_json ==> lazy_body(kind, is_json, body).len() == 1,
        kind != ExportsKind::CommonJs && is_json ==> lazy_body(kind, is_json, body).len() == match body[0]->ExpressionStatement_0 {
            Expression::Object(props) => string_keys(props@).len(),
            Expression::Source(_) => 0,
        },
{
    if let Expression::Object(props) = body[0]->ExpressionStatement_0 {
        lemma_json_exports_count(props@);
    }
}

proof fn lemma_rewrites_json_installed(stage: &LinkStage, i: int)
    requires
        stage.lazy_ready(),
        0 <= i < stage.module_table.modules@.len(),
        is_lazy(stage.module_table.modules@[i]),
    ensures
        rewrites_json(stage.module_table.modules@[i]->Normal_0) ==> stage.symbols.installed(
            ModuleIdx(i as usize),
        ),
{
}

/// Once no module is flagged lazy any more, the pass may run again and, by its
/// contract, touches no module and no AST entry.
pub proof fn lemma_rerun_is_noop(stage: &LinkStage)
    requires
        forall|k: int| 0 <= k < stage.module_table.modules@.len() ==> !is_lazy(#[trigger] stage.module_table.modules@[k]),
    ensures
        stage.lazy_ready(),
        forall|j: int|
            0 <= j < stage.ast_table@.len() ==> !owned_by_lazy(
                stage.module_table.modules@,
                stage.ast_table@,
                j,
            ),
{
    assert forall|j: int| 0 <= j < stage.ast_table@.len() implies !owned_by_lazy(
        stage.module_table.modules@,
        stage.ast_table@,
        j,
    ) by {
        let k = stage.ast_table@[j].1.0 as int;
        if k < stage.module_table.modules@.len() {
            assert(!is_lazy(stage.module_table.modules@[k]));
        }
    }
}

} // verus!
