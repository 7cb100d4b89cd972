use vstd::prelude::*;

use crate::lazy_export::{LinkStage, ModuleTable};
use crate::symbol_ref_db::SymbolRefDb;

verus! {

fn assert_send<T: Send>(_value: T) {
}

/// Compile-time check: the tables the link stage owns can be handed to another
/// thread, as a bundler running its stages on a task pool needs.
pub fn _test_bundler() {
    let stage = LinkStage {
        module_table: ModuleTable { modules: Vec::new() },
        ast_table: Vec::new(),
        symbols: SymbolRefDb::default(),
    };
    assert_send(stage);
}

} // verus!
