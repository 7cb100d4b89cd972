use vstd::prelude::*;

verus! {

/// Dense index of a module in the module table.
#[derive(Clone, Copy, Debug, PartialEq, Eq, Hash, Structural)]
pub struct ModuleIdx(pub usize);

/// Dense index of a symbol inside one module's symbol table.
#[derive(Clone, Copy, Debug, PartialEq, Eq, Hash, Structural)]
pub struct SymbolId(pub usize);

/// Dense index of an output chunk.
#[derive(Clone, Copy, Debug, PartialEq, Eq, Hash, Structural)]
pub struct ChunkIdx(pub usize);

/// Dense index of a top-level statement's bookkeeping record.
#[derive(Clone, Copy, Debug, PartialEq, Eq, Hash, Structural)]
pub struct StmtInfoIdx(pub usize);

/// Dense index into the AST table.
#[derive(Clone, Copy, Debug, PartialEq, Eq, Hash, Structural)]
pub struct AstIdx(pub usize);

/// Scope a parser-level symbol was declared in.
#[derive(Clone, Copy, Debug, PartialEq, Eq, Hash, Structural)]
pub struct ScopeId(pub usize);

/// AST node that declares a parser-level symbol.
#[derive(Clone, Copy, Debug, PartialEq, Eq, Hash, Structural)]
pub struct NodeId(pub usize);

/// Byte range `[start, end)` of a node in its source text.
#[derive(Clone, Copy, Debug, PartialEq, Eq, Hash, Structural)]
pub struct Span {
    pub start: u32,
    pub end: u32,
}

impl Span {
    /// The empty span given to synthesized nodes.
    pub fn empty() -> (r: Span)
        ensures
            r.start == 0 && r.end == 0,
    {
        Span { start: 0, end: 0 }
    }
}

/// Declaration flags of a parser-level symbol (bit set).
#[derive(Clone, Copy, Debug, PartialEq, Eq, Hash, Structural)]
pub struct SymbolFlags(pub u32);

/// Global identity of a binding: the owning module and the symbol in it.
#[derive(Clone, Copy, Debug, PartialEq, Eq, Hash, Structural)]
pub struct SymbolRef {
    pub owner: ModuleIdx,
    pub symbol: SymbolId,
}

/// Directive that uses of a symbol become the property `property_name`
/// of the namespace object `namespace_ref`.
#[derive(Clone, Debug)]
pub struct NamespaceAlias {
    pub property_name: String,
    pub namespace_ref: SymbolRef,
}

/// Bit set of link-time facts about a symbol.
#[derive(Clone, Copy, Debug, PartialEq, Eq, Hash, Default, Structural)]
pub struct SymbolRefFlags {
    pub bits: u8,
}

impl SymbolRefFlags {
    /// The binding is never written after initialization.
    pub const IS_NOT_REASSIGNED: u8 = 1;
    /// The binding is declared with `const`.
    pub const IS_CONST: u8 = 2;

    pub open spec fn has(self, flag: u8) -> bool {
        self.bits & flag == flag
    }

    pub fn contains(&self, flag: u8) -> (r: bool)
        ensures
            r == self.has(flag),
    {
        self.bits & flag == flag
    }
}

} // verus!
