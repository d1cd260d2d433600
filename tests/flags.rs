use oxc_semantic2::flags::{
    SymbolFlags, BLOCK_SCOPED_VARIABLE, BLOCK_SCOPED_VARIABLE_EXCLUDES, CATCH_VARIABLE, CLASS,
    CLASS_EXCLUDES, CONST_VARIABLE, EXPORT, FUNCTION, FUNCTION_SCOPED_VARIABLE,
    FUNCTION_SCOPED_VARIABLE_EXCLUDES, IMPORT, VALUE, VARIABLE,
};

#[test]
fn composite_masks() {
    assert_eq!(VARIABLE, 0b11);
    assert_eq!(VALUE, 0b10_0011);
    assert_eq!(FUNCTION_SCOPED_VARIABLE_EXCLUDES, 0b10_0010);
    assert_eq!(BLOCK_SCOPED_VARIABLE_EXCLUDES, VALUE);
    assert_eq!(CLASS_EXCLUDES, VALUE);
    assert_eq!(IMPORT, 8);
    assert_eq!(EXPORT, 16);
}

#[test]
fn predicates() {
    let var = SymbolFlags::from_bits(FUNCTION_SCOPED_VARIABLE);
    let constant = SymbolFlags::from_bits(BLOCK_SCOPED_VARIABLE | CONST_VARIABLE);
    let function = SymbolFlags::from_bits(FUNCTION);
    let catch = SymbolFlags::from_bits(CATCH_VARIABLE);
    assert!(var.is_variable());
    assert!(var.is_function_scoped_declaration());
    assert!(constant.is_variable());
    assert!(!constant.is_function_scoped_declaration());
    assert!(function.is_function());
    assert!(!function.is_variable());
    assert!(catch.is_catch_variable());
    assert!(!catch.is_function());
    assert!(SymbolFlags::empty().bits() == 0);
}

#[test]
fn set_operations() {
    let a = SymbolFlags::from_bits(FUNCTION_SCOPED_VARIABLE);
    let b = SymbolFlags::from_bits(CLASS);
    let both = a.union(b);
    assert_eq!(both.bits(), FUNCTION_SCOPED_VARIABLE | CLASS);
    assert!(both.contains(a));
    assert!(!a.contains(both));
    assert!(both.intersects(b));
    assert!(!a.intersects(b));
}

#[test]
fn exclusion_masks() {
    let var = SymbolFlags::from_bits(FUNCTION_SCOPED_VARIABLE);
    let let_ = SymbolFlags::from_bits(BLOCK_SCOPED_VARIABLE);
    let class = SymbolFlags::from_bits(CLASS);
    let function = SymbolFlags::from_bits(FUNCTION);
    assert_eq!(var.excludes().bits(), FUNCTION_SCOPED_VARIABLE_EXCLUDES);
    assert_eq!(let_.excludes().bits(), BLOCK_SCOPED_VARIABLE_EXCLUDES);
    assert_eq!(class.excludes().bits(), CLASS_EXCLUDES);
    assert_eq!(function.excludes().bits(), 0);
}

#[test]
fn conflict_matrix() {
    let var = SymbolFlags::from_bits(FUNCTION_SCOPED_VARIABLE);
    let let_ = SymbolFlags::from_bits(BLOCK_SCOPED_VARIABLE);
    let class = SymbolFlags::from_bits(CLASS);
    let function = SymbolFlags::from_bits(FUNCTION);
    assert!(!var.conflicts_with(var));
    assert!(let_.conflicts_with(let_));
    assert!(let_.conflicts_with(var));
    assert!(var.conflicts_with(let_));
    assert!(class.conflicts_with(class));
    assert!(var.conflicts_with(class));
    assert!(!function.conflicts_with(function));
    assert!(!function.conflicts_with(let_));
}
