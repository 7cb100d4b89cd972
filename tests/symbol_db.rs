use rolldown_link::symbol_ref_db::{SymbolRefDb, SymbolRefDbForModule, SymbolTable};
use rolldown_link::types::{ModuleIdx, NodeId, ScopeId, Span, SymbolFlags, SymbolId, SymbolRef, SymbolRefFlags};

fn table(names: &[&str]) -> SymbolTable {
    let mut t = SymbolTable::new();
    for n in names {
        t.create_symbol(Span { start: 0, end: 1 }, n.to_string(), SymbolFlags(0), ScopeId(0), NodeId(0));
    }
    t
}

fn db_with(names: &[&str]) -> SymbolRefDb {
    let mut db = SymbolRefDb::default();
    db.store_local_db(ModuleIdx(0), SymbolRefDbForModule::new(table(names)));
    db
}

fn sym(m: usize, s: usize) -> SymbolRef {
    SymbolRef { owner: ModuleIdx(m), symbol: SymbolId(s) }
}

fn hops(db: &SymbolRefDb, mut r: SymbolRef) -> usize {
    let mut n = 0;
    while let Some(p) = db.get(r).link {
        r = p;
        n += 1;
    }
    n
}

#[test]
fn local_db_new_copies_names() {
    let local = SymbolRefDbForModule::new(table(&["a", "b"]));
    assert_eq!(local.classic_data.len(), 2);
    assert_eq!(local.classic_data[1].name, "b");
    assert!(local.classic_data.iter().all(|d| d.link.is_none() && d.chunk_id.is_none()));
}

#[test]
fn local_db_create_symbol_appends_to_both() {
    let mut local = SymbolRefDbForModule::new(table(&["a"]));
    let id = local.create_symbol(Span { start: 3, end: 4 }, "z".to_string(), SymbolFlags(2), ScopeId(1), NodeId(7));
    assert_eq!(id, SymbolId(1));
    assert_eq!(local.classic_data.len(), 2);
    assert_eq!(local.classic_data[1].name, "z");
    assert_eq!(local.symbol_table.names[1], "z");
    assert_eq!(local.symbol_table.declarations[1], NodeId(7));
}

#[test]
fn unlinked_symbol_is_its_own_canonical() {
    let mut db = db_with(&["a", "b"]);
    assert_eq!(db.canonical_ref_for(sym(0, 1)), sym(0, 1));
    assert_eq!(db.find_mut(sym(0, 1)), sym(0, 1));
}

#[test]
fn linking_chain_resolves_to_last_and_halves() {
    let mut db = db_with(&["A", "B", "C"]);
    let (a, b, c) = (sym(0, 0), sym(0, 1), sym(0, 2));
    db.link(a, b);
    db.link(b, c);
    assert_eq!(db.canonical_ref_for(a), c);
    assert_eq!(db.find_mut(a), c);
    assert!(hops(&db, a) <= 2);
    assert_eq!(db.canonical_ref_for(b), c);
    assert_eq!(db.canonical_ref_for(a), c);
}

#[test]
fn link_direction_keeps_target_root() {
    let mut db = db_with(&["x", "y"]);
    db.link(sym(0, 0), sym(0, 1));
    assert_eq!(db.get(sym(0, 0)).link, Some(sym(0, 1)));
    assert_eq!(db.get(sym(0, 1)).link, None);
}

#[test]
fn link_self_changes_nothing() {
    let mut db = db_with(&["a", "b"]);
    db.link(sym(0, 0), sym(0, 0));
    assert_eq!(db.get(sym(0, 0)).link, None);
    assert_eq!(db.canonical_ref_for(sym(0, 0)), sym(0, 0));
    assert_eq!(db.canonical_ref_for(sym(0, 1)), sym(0, 1));
}

#[test]
fn link_twice_changes_no_canonical() {
    let mut db = db_with(&["a", "b", "c", "d"]);
    db.link(sym(0, 0), sym(0, 1));
    db.link(sym(0, 1), sym(0, 2));
    let before: Vec<SymbolRef> = (0..4).map(|i| db.canonical_ref_for(sym(0, i))).collect();
    db.link(sym(0, 1), sym(0, 2));
    let after: Vec<SymbolRef> = (0..4).map(|i| db.canonical_ref_for(sym(0, i))).collect();
    assert_eq!(before, after);
}

#[test]
fn find_mut_agrees_and_is_idempotent() {
    let mut db = db_with(&["a", "b", "c", "d", "e"]);
    db.link(sym(0, 0), sym(0, 1));
    db.link(sym(0, 2), sym(0, 0));
    db.link(sym(0, 3), sym(0, 2));
    for i in 0..5 {
        let s = sym(0, i);
        let read_only = db.canonical_ref_for(s);
        let found = db.find_mut(s);
        assert_eq!(read_only, found);
        assert_eq!(db.find_mut(found), found);
    }
    assert_eq!(db.canonical_ref_for(sym(0, 3)), sym(0, 1));
    assert_eq!(db.canonical_ref_for(sym(0, 4)), sym(0, 4));
}

#[test]
fn linked_pairs_share_canonical() {
    let mut db = db_with(&["a", "b", "c", "d"]);
    db.link(sym(0, 3), sym(0, 2));
    db.link(sym(0, 0), sym(0, 3));
    assert_eq!(db.canonical_ref_for(sym(0, 0)), db.canonical_ref_for(sym(0, 3)));
    assert_eq!(db.canonical_ref_for(sym(0, 3)), db.canonical_ref_for(sym(0, 2)));
    assert_ne!(db.canonical_ref_for(sym(0, 1)), db.canonical_ref_for(sym(0, 2)));
}

#[test]
fn store_past_range_extends_capacity() {
    let mut db = db_with(&["a"]);
    db.store_local_db(ModuleIdx(5), SymbolRefDbForModule::new(table(&[])));
    let r = db.create_symbol(ModuleIdx(5), "late".to_string());
    assert_eq!(r, sym(5, 0));
    assert_eq!(db.get(r).name, "late");
    assert_eq!(db.canonical_ref_for(r), r);
    db.link(sym(0, 0), r);
    assert_eq!(db.canonical_ref_for(sym(0, 0)), r);
}

#[test]
fn create_symbol_appends_fresh_record() {
    let mut db = db_with(&["a", "b"]);
    let r = db.create_symbol(ModuleIdx(0), "c".to_string());
    assert_eq!(r, sym(0, 2));
    assert!(db.get(r).link.is_none());
    assert!(db.get(r).namespace_alias.is_none());
}

#[test]
fn long_chain_terminates() {
    let n = 200_000usize;
    let names: Vec<String> = (0..n).map(|i| format!("s{i}")).collect();
    let refs: Vec<&str> = names.iter().map(|s| s.as_str()).collect();
    let mut db = db_with(&refs);
    for i in 0..n - 1 {
        db.link(sym(0, i), sym(0, i + 1));
    }
    assert_eq!(db.canonical_ref_for(sym(0, 0)), sym(0, n - 1));
    assert_eq!(db.find_mut(sym(0, 0)), sym(0, n - 1));
    assert_eq!(db.canonical_ref_for(sym(0, 1)), sym(0, n - 1));
    assert!(hops(&db, sym(0, 0)) <= n / 2 + 1);
}

fn canonical_map_after_links(order: &[usize], n: usize) -> Vec<SymbolRef> {
    let mut db = SymbolRefDb::default();
    for m in 0..n {
        db.store_local_db(ModuleIdx(m), SymbolRefDbForModule::new(table(&["local", "import"])));
    }
    for &m in order {
        if m > 0 {
            db.link(sym(m, 1), sym(m - 1, 0));
            db.link(sym(m, 0), sym(m, 1));
        }
    }
    let mut out = Vec::new();
    for m in 0..n {
        out.push(db.canonical_ref_for(sym(m, 0)));
        out.push(db.canonical_ref_for(sym(m, 1)));
    }
    out
}

#[test]
fn link_order_does_not_change_canonical_refs() {
    let n = 10_000usize;
    let forward: Vec<usize> = (0..n).collect();
    let backward: Vec<usize> = (0..n).rev().collect();
    let mut shuffled: Vec<usize> = (0..n).collect();
    let mut seed: u64 = 12345;
    for i in (1..n).rev() {
        seed = seed.wrapping_mul(6364136223846793005).wrapping_add(1442695040888963407);
        let j = (seed >> 33) as usize % (i + 1);
        shuffled.swap(i, j);
    }
    let a = canonical_map_after_links(&forward, n);
    let b = canonical_map_after_links(&backward, n);
    let c = canonical_map_after_links(&shuffled, n);
    assert_eq!(a, b);
    assert_eq!(a, c);
    assert_eq!(a[2 * (n - 1)], sym(0, 0));
}

#[test]
fn canonical_name_uses_canonical_ref() {
    let mut db = db_with(&["a", "b"]);
    db.link(sym(0, 0), sym(0, 1));
    let names = vec![(sym(0, 0), "wrong".to_string()), (sym(0, 1), "b$1".to_string())];
    assert_eq!(db.canonical_name_for(sym(0, 0), &names), "b$1");
}

#[test]
fn flags_are_sparse() {
    let mut local = SymbolRefDbForModule::new(table(&["a", "b"]));
    local.flags.insert(1, SymbolRefFlags { bits: SymbolRefFlags::IS_CONST });
    let mut db = SymbolRefDb::default();
    db.store_local_db(ModuleIdx(0), local);
    assert!(db.get_flags(sym(0, 0)).is_none());
    let f = db.get_flags(sym(0, 1)).unwrap();
    assert!(f.contains(SymbolRefFlags::IS_CONST));
    assert!(!f.contains(SymbolRefFlags::IS_NOT_REASSIGNED));
}

#[test]
fn get_mut_writes_through() {
    let mut db = db_with(&["a"]);
    db.get_mut(sym(0, 0)).name = "renamed".to_string();
    assert_eq!(db.get(sym(0, 0)).name, "renamed");
}

#[test]
fn find_mut_on_root_writes_nothing() {
    let mut db = db_with(&["a", "b", "c"]);
    db.link(sym(0, 0), sym(0, 1));
    let before: Vec<Option<SymbolRef>> = (0..3).map(|i| db.get(sym(0, i)).link).collect();
    assert_eq!(db.find_mut(sym(0, 1)), sym(0, 1));
    let after: Vec<Option<SymbolRef>> = (0..3).map(|i| db.get(sym(0, i)).link).collect();
    assert_eq!(before, after);
}

#[test]
fn find_mut_halves_long_path() {
    let mut db = db_with(&["0", "1", "2", "3", "4", "5", "6"]);
    for i in 0..6 {
        db.link(sym(0, i), sym(0, i + 1));
    }
    assert_eq!(hops(&db, sym(0, 0)), 6);
    assert_eq!(db.find_mut(sym(0, 0)), sym(0, 6));
    assert_eq!(hops(&db, sym(0, 0)), 3);
    assert_eq!(db.get(sym(0, 0)).link, Some(sym(0, 2)));
    assert_eq!(db.get(sym(0, 2)).link, Some(sym(0, 4)));
    assert_eq!(db.get(sym(0, 1)).link, Some(sym(0, 2)));
    for i in 0..7 {
        assert_eq!(db.canonical_ref_for(sym(0, i)), sym(0, 6));
    }
}

#[test]
fn link_self_on_root_leaves_db_unchanged() {
    let mut db = db_with(&["a", "b"]);
    db.link(sym(0, 0), sym(0, 1));
    db.link(sym(0, 1), sym(0, 1));
    assert_eq!(db.get(sym(0, 0)).link, Some(sym(0, 1)));
    assert_eq!(db.get(sym(0, 1)).link, None);
}
