use rolldown_link::lazy_export::{
    extract_object_properties_from_json_like_ast, json_object_to_exports, rewrite_lazy_body, EcmaAst,
    EcmaModuleAstUsage, ExportsKind, Expression, ExternalModule, LinkStage, LocalExport, Module, ModuleMeta,
    ModuleTable, ModuleType, NormalModule, ObjectPropertyKind, Program, PropertyKey, Statement, StmtInfo,
    StmtInfos,
};
use rolldown_link::symbol_ref_db::{SymbolRefDb, SymbolRefDbForModule, SymbolTable};
use rolldown_link::types::{AstIdx, ModuleIdx, Span, SymbolId, SymbolRef};

fn sref(m: usize, s: usize) -> SymbolRef {
    SymbolRef { owner: ModuleIdx(m), symbol: SymbolId(s) }
}

fn infos(n: usize) -> StmtInfos {
    StmtInfos { infos: (0..n).map(|_| StmtInfo { side_effect: false, declared_symbols: Vec::new() }).collect() }
}

fn module(idx: usize, kind: ExportsKind, ty: ModuleType, lazy: bool) -> NormalModule {
    NormalModule {
        idx: ModuleIdx(idx),
        exports_kind: kind,
        module_type: ty,
        named_exports: Vec::new(),
        default_export_ref: sref(idx, 0),
        namespace_object_ref: sref(idx, 1),
        stmt_infos: infos(2),
        ast_usage: EcmaModuleAstUsage { bits: 0 },
        meta: ModuleMeta { lazy_export: lazy },
        ast_idx: AstIdx(idx),
    }
}

fn stage(modules: Vec<NormalModule>, bodies: Vec<Vec<Statement>>) -> LinkStage {
    let mut symbols = SymbolRefDb::default();
    let mut ast_table = Vec::new();
    for (i, body) in bodies.into_iter().enumerate() {
        ast_table.push((EcmaAst { program: Program { body } }, ModuleIdx(i)));
        symbols.store_local_db(ModuleIdx(i), SymbolRefDbForModule::new(SymbolTable::new()));
    }
    LinkStage {
        module_table: ModuleTable { modules: modules.into_iter().map(Module::Normal).collect() },
        ast_table,
        symbols,
    }
}

fn src(s: &str) -> Expression {
    Expression::Source(s.to_string())
}

fn json_ab() -> Expression {
    Expression::Object(vec![
        ObjectPropertyKind::ObjectProperty(PropertyKey::StringLiteral("a".to_string()), src("1")),
        ObjectPropertyKind::ObjectProperty(PropertyKey::StringLiteral("b".to_string()), src("2")),
    ])
}

fn normal(st: &LinkStage, i: usize) -> &NormalModule {
    match &st.module_table.modules[i] {
        Module::Normal(m) => m,
        Module::External(_) => panic!("not a normal module"),
    }
}

fn default_export(m: &NormalModule) -> Option<&LocalExport> {
    m.named_exports.iter().find(|(k, _)| k == "default").map(|(_, v)| v)
}

#[test]
fn commonjs_lazy_rewrite() {
    let mut st = stage(
        vec![module(0, ExportsKind::CommonJs, ModuleType::Js, true)],
        vec![vec![Statement::ExpressionStatement(src("foo()"))]],
    );
    assert!(st.lazy_export_ready());
    st.generate_lazy_export();
    let body = &st.ast_table[0].0.program.body;
    assert_eq!(body.len(), 1);
    assert!(matches!(&body[0], Statement::ModuleExportsAssignment(Expression::Source(s)) if s == "foo()"));
    let m = normal(&st, 0);
    assert!(m.stmt_infos.infos[1].side_effect);
    assert!(m.ast_usage.contains(EcmaModuleAstUsage::MODULE_REF));
    assert_eq!(default_export(m).unwrap().referenced, m.default_export_ref);
    assert_eq!(m.stmt_infos.infos[1].declared_symbols, vec![m.default_export_ref]);
}

#[test]
fn esm_lazy_default() {
    let mut st = stage(
        vec![module(0, ExportsKind::Esm, ModuleType::Js, true)],
        vec![vec![Statement::ExpressionStatement(src("42"))]],
    );
    st.generate_lazy_export();
    let body = &st.ast_table[0].0.program.body;
    assert_eq!(body.len(), 1);
    assert!(matches!(&body[0], Statement::ExportDefaultExpression(Expression::Source(s)) if s == "42"));
    let m = normal(&st, 0);
    let d = default_export(m).unwrap();
    assert_eq!(d.referenced, sref(0, 0));
    assert_eq!(d.span, Span { start: 0, end: 0 });
    assert!(!m.stmt_infos.infos[1].side_effect);
    assert!(!m.ast_usage.contains(EcmaModuleAstUsage::MODULE_REF));
}

#[test]
fn json_lazy_becomes_named_exports() {
    let mut st = stage(
        vec![module(0, ExportsKind::Esm, ModuleType::Json, true)],
        vec![vec![Statement::ExpressionStatement(json_ab())]],
    );
    st.generate_lazy_export();
    let body = &st.ast_table[0].0.program.body;
    assert_eq!(body.len(), 2);
    assert!(matches!(&body[0], Statement::ExportNamedConst(k, Expression::Source(v)) if k == "a" && v == "1"));
    assert!(matches!(&body[1], Statement::ExportNamedConst(k, Expression::Source(v)) if k == "b" && v == "2"));
    let m = normal(&st, 0);
    assert_eq!(m.stmt_infos.infos.len(), 1);
    assert!(default_export(m).is_some());
    let names: Vec<&str> = m.named_exports.iter().map(|(k, _)| k.as_str()).collect();
    assert_eq!(names, vec!["default", "a", "b"]);
    let a_ref = m.named_exports[1].1.referenced;
    let b_ref = m.named_exports[2].1.referenced;
    assert_eq!(a_ref, sref(0, 0));
    assert_eq!(b_ref, sref(0, 1));
    assert_eq!(st.symbols.get(a_ref).name, "a");
    assert_eq!(st.symbols.get(b_ref).name, "b");
    assert_eq!(st.symbols.canonical_ref_for(b_ref), b_ref);
}

#[test]
fn json_without_symbol_table_is_rejected() {
    let mut st = stage(
        vec![module(0, ExportsKind::Esm, ModuleType::Json, true)],
        vec![vec![Statement::ExpressionStatement(json_ab())]],
    );
    st.symbols = SymbolRefDb::default();
    assert!(!st.lazy_export_ready());
}

#[test]
fn json_drops_spread_and_computed_keys() {
    let obj = Expression::Object(vec![
        ObjectPropertyKind::SpreadProperty(src("x")),
        ObjectPropertyKind::ObjectProperty(PropertyKey::Computed, src("3")),
        ObjectPropertyKind::ObjectProperty(PropertyKey::StringLiteral("k".to_string()), src("true")),
    ]);
    let out = json_object_to_exports(obj);
    assert_eq!(out.len(), 1);
    assert!(matches!(&out[0], Statement::ExportNamedConst(k, _) if k == "k"));
    assert!(json_object_to_exports(src("[1, 2]")).is_empty());
}

#[test]
fn extract_keys_of_json_like_ast() {
    let ast = EcmaAst { program: Program { body: vec![Statement::ExpressionStatement(json_ab())] } };
    assert_eq!(extract_object_properties_from_json_like_ast(&ast), vec!["a".to_string(), "b".to_string()]);
    let empty = EcmaAst { program: Program { body: Vec::new() } };
    assert!(extract_object_properties_from_json_like_ast(&empty).is_empty());
    let other = EcmaAst { program: Program { body: vec![Statement::Source("let x = 1".to_string())] } };
    assert!(extract_object_properties_from_json_like_ast(&other).is_empty());
}

#[test]
fn non_lazy_and_external_modules_untouched() {
    let mut st = stage(
        vec![
            module(0, ExportsKind::Esm, ModuleType::Js, false),
            module(1, ExportsKind::Esm, ModuleType::Js, true),
        ],
        vec![
            vec![Statement::ExpressionStatement(src("a"))],
            vec![Statement::ExpressionStatement(src("b"))],
        ],
    );
    st.module_table.modules.push(Module::External(ExternalModule { idx: ModuleIdx(2), id: "ext".to_string() }));
    st.generate_lazy_export();
    assert!(matches!(&st.ast_table[0].0.program.body[0], Statement::ExpressionStatement(_)));
    assert!(normal(&st, 0).named_exports.is_empty());
    assert!(matches!(&st.ast_table[1].0.program.body[0], Statement::ExportDefaultExpression(_)));
    assert!(matches!(&st.module_table.modules[2], Module::External(_)));
}

#[test]
fn every_lazy_module_is_processed() {
    let mut st = stage(
        vec![
            module(0, ExportsKind::CommonJs, ModuleType::Js, true),
            module(1, ExportsKind::Esm, ModuleType::Json, true),
            module(2, ExportsKind::Esm, ModuleType::Ts, true),
        ],
        vec![
            vec![Statement::ExpressionStatement(src("f()"))],
            vec![Statement::ExpressionStatement(json_ab())],
            vec![Statement::ExpressionStatement(src("1 + 1"))],
        ],
    );
    st.generate_lazy_export();
    assert!(matches!(&st.ast_table[0].0.program.body[0], Statement::ModuleExportsAssignment(_)));
    assert_eq!(st.ast_table[1].0.program.body.len(), 2);
    assert!(matches!(&st.ast_table[2].0.program.body[0], Statement::ExportDefaultExpression(_)));
}

#[test]
fn rerun_after_clearing_flag_is_noop() {
    let mut st = stage(
        vec![module(0, ExportsKind::CommonJs, ModuleType::Js, true)],
        vec![vec![Statement::ExpressionStatement(src("foo()"))]],
    );
    st.generate_lazy_export();
    if let Module::Normal(m) = &mut st.module_table.modules[0] {
        m.meta.lazy_export = false;
    }
    let exports_before = normal(&st, 0).named_exports.len();
    assert!(st.lazy_export_ready());
    st.generate_lazy_export();
    assert_eq!(normal(&st, 0).named_exports.len(), exports_before);
    assert_eq!(st.ast_table[0].0.program.body.len(), 1);
    assert!(matches!(&st.ast_table[0].0.program.body[0], Statement::ModuleExportsAssignment(_)));
}

#[test]
fn wrong_lazy_shape_is_rejected() {
    let st = stage(
        vec![module(0, ExportsKind::Esm, ModuleType::Js, true)],
        vec![vec![Statement::Source("function f() {}".to_string())]],
    );
    assert!(!st.lazy_export_ready());
    let empty = stage(vec![module(0, ExportsKind::Esm, ModuleType::Js, true)], vec![Vec::new()]);
    assert!(!empty.lazy_export_ready());
    let mut short = stage(
        vec![module(0, ExportsKind::Esm, ModuleType::Js, true)],
        vec![vec![Statement::ExpressionStatement(src("1"))]],
    );
    if let Module::Normal(m) = &mut short.module_table.modules[0] {
        m.stmt_infos = infos(1);
    }
    assert!(!short.lazy_export_ready());
}

#[test]
fn rewrite_body_keeps_later_statements() {
    let mut body = vec![Statement::ExpressionStatement(src("x")), Statement::Source("tail".to_string())];
    rewrite_lazy_body(&mut body, ExportsKind::Esm, false);
    assert_eq!(body.len(), 2);
    assert!(matches!(&body[0], Statement::ExportDefaultExpression(Expression::Source(s)) if s == "x"));
    assert!(matches!(&body[1], Statement::Source(s) if s == "tail"));
}

#[test]
fn ast_usage_insert_keeps_flags() {
    let mut u = EcmaModuleAstUsage { bits: EcmaModuleAstUsage::EXPORTS_REF };
    u.insert(EcmaModuleAstUsage::MODULE_REF);
    assert!(u.contains(EcmaModuleAstUsage::MODULE_REF));
    assert!(u.contains(EcmaModuleAstUsage::EXPORTS_REF));
    assert_eq!(u.bits, 3);
}

#[test]
fn existing_default_export_is_rejected() {
    let mut st = stage(
        vec![module(0, ExportsKind::Esm, ModuleType::Js, true)],
        vec![vec![Statement::ExpressionStatement(src("1"))]],
    );
    if let Module::Normal(m) = &mut st.module_table.modules[0] {
        m.named_exports.push(("default".to_string(), LocalExport { span: Span { start: 0, end: 0 }, referenced: sref(0, 0) }));
    }
    assert!(!st.lazy_export_ready());
}
