use vstd::prelude::*;

verus! {

/// Variable (var) or parameter.
pub const FUNCTION_SCOPED_VARIABLE: u16 = 1;

/// A block-scoped variable (let or const).
pub const BLOCK_SCOPED_VARIABLE: u16 = 2;

/// A const variable (const).
pub const CONST_VARIABLE: u16 = 4;

/// A binding inside an import declaration.
pub const IMPORT: u16 = 8;

/// A binding inside an export declaration.
pub const EXPORT: u16 = 16;

pub const CLASS: u16 = 32;

/// The binding of `catch (e) {}`.
pub const CATCH_VARIABLE: u16 = 64;

pub const FUNCTION: u16 = 128;

pub const VARIABLE: u16 = FUNCTION_SCOPED_VARIABLE | BLOCK_SCOPED_VARIABLE;

pub const VALUE: u16 = VARIABLE | CLASS;

/// Variables can be redeclared, but cannot redeclare a block-scoped declaration with the
/// same name, or any other value that is not a variable, e.g. a class.
pub const FUNCTION_SCOPED_VARIABLE_EXCLUDES: u16 = VALUE & !FUNCTION_SCOPED_VARIABLE;

/// Block-scoped declarations cannot be redeclared: they merge with nothing in the value space.
pub const BLOCK_SCOPED_VARIABLE_EXCLUDES: u16 = VALUE;

pub const CLASS_EXCLUDES: u16 = VALUE;

/// The declaration semantics of a binding, as a set of bits.
#[derive(Clone, Copy, Debug, PartialEq, Eq, Structural, Hash)]
pub struct SymbolFlags {
    pub bits: u16,
}

/// The bits that a declaration with these flags forbids in another declaration of the same
/// name in the same scope.
pub open spec fn excludes_of(bits: u16) -> u16 {
    if bits & FUNCTION_SCOPED_VARIABLE != 0 {
        FUNCTION_SCOPED_VARIABLE_EXCLUDES
    } else if bits & BLOCK_SCOPED_VARIABLE != 0 {
        BLOCK_SCOPED_VARIABLE_EXCLUDES
    } else if bits & CLASS != 0 {
        CLASS_EXCLUDES
    } else {
        0
    }
}

/// Two declarations of one name in one scope conflict when either one's bits meet what the
/// other excludes.
pub open spec fn conflicts(new_bits: u16, existing_bits: u16) -> bool {
    new_bits & excludes_of(existing_bits) != 0 || existing_bits & excludes_of(new_bits) != 0
}

impl SymbolFlags {
    pub fn from_bits(bits: u16) -> (r: SymbolFlags)
        ensures
            r.bits == bits,
    {
        SymbolFlags { bits }
    }

    pub fn empty() -> (r: SymbolFlags)
        ensures
            r.bits == 0,
    {
        SymbolFlags { bits: 0 }
    }

    pub fn bits(&self) -> (r: u16)
        ensures
            r == self.bits,
    {
        self.bits
    }

    pub fn union(self, other: SymbolFlags) -> (r: SymbolFlags)
        ensures
            r.bits == self.bits | other.bits,
    {
        SymbolFlags { bits: self.bits | other.bits }
    }

    /// Whether the two sets share a bit.
    pub fn intersects(&self, other: SymbolFlags) -> (r: bool)
        ensures
            r == (self.bits & other.bits != 0),
    {
        self.bits & other.bits != 0
    }

    /// Whether every bit of `other` is in this set.
    pub fn contains(&self, other: SymbolFlags) -> (r: bool)
        ensures
            r == (self.bits & other.bits == other.bits),
    {
        self.bits & other.bits == other.bits
    }

    pub fn is_variable(&self) -> (r: bool)
        ensures
            r == (self.bits & VARIABLE != 0),
    {
        self.bits & VARIABLE != 0
    }

    pub fn is_function(&self) -> (r: bool)
        ensures
            r == (self.bits & FUNCTION != 0),
    {
        self.bits & FUNCTION != 0
    }

    pub fn is_catch_variable(&self) -> (r: bool)
        ensures
            r == (self.bits & CATCH_VARIABLE != 0),
    {
        self.bits & CATCH_VARIABLE != 0
    }

    pub fn is_function_scoped_declaration(&self) -> (r: bool)
        ensures
            r == (self.bits & FUNCTION_SCOPED_VARIABLE != 0),
    {
        self.bits & FUNCTION_SCOPED_VARIABLE != 0
    }

    /// The bits that this declaration forbids in another one of the same name and scope.
    pub fn excludes(&self) -> (r: SymbolFlags)
        ensures
            r.bits == excludes_of(self.bits),
    {
        if self.bits & FUNCTION_SCOPED_VARIABLE != 0 {
            SymbolFlags { bits: FUNCTION_SCOPED_VARIABLE_EXCLUDES }
        } else if self.bits & BLOCK_SCOPED_VARIABLE != 0 {
            SymbolFlags { bits: BLOCK_SCOPED_VARIABLE_EXCLUDES }
        } else if self.bits & CLASS != 0 {
            SymbolFlags { bits: CLASS_EXCLUDES }
        } else {
            SymbolFlags { bits: 0 }
        }
    }

    /// Whether a declaration with these flags may not stand beside `existing` under one name
    /// in one scope.
    pub fn conflicts_with(&self, existing: SymbolFlags) -> (r: bool)
        ensures
            r == conflicts(self.bits, existing.bits),
    {
        self.intersects(existing.excludes()) || existing.intersects(self.excludes())
    }
}

} // verus!
