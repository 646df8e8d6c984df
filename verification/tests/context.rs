use rune_ssa::Context;
use rune_ssa::ContextError;
use rune_ssa::FnSignature;
use rune_ssa::Item;
use rune_ssa::Module;
use rune_ssa::ModuleFunction;
use rune_ssa::ModuleInstanceFunction;
use rune_ssa::ModuleType;
use rune_ssa::TypeInfo;
use rune_ssa::ValueType;
use rune_ssa::ValueTypeInfo;

fn item(path: &str) -> Item {
    Item { path: path.to_string() }
}

fn info(name: &str) -> ValueTypeInfo {
    ValueTypeInfo { name: name.to_string() }
}

fn string_type(hash: u64) -> ModuleType {
    ModuleType {
        value_type: ValueType(7),
        type_info: info("String"),
        name: item("std::string::String"),
        hash: rune_ssa::context::Hash(hash),
    }
}

fn empty_module() -> Module {
    Module { types: vec![], functions: vec![], instance_functions: vec![] }
}

#[test]
fn new_context_holds_nothing() {
    let context = Context::new();
    assert!(context.iter_functions().is_empty());
    assert!(context.iter_types().is_empty());
    assert!(context.lookup_type(rune_ssa::context::Hash(1)).is_none());
}

#[test]
fn signatures_are_built_from_their_parts() {
    assert_eq!(
        FnSignature::new_free(item("std::drop"), Some(1)),
        FnSignature::Free { path: item("std::drop"), args: Some(1) }
    );
    assert_eq!(
        FnSignature::new_inst(item("std::string::String"), "len".to_string(), None, info("String")),
        FnSignature::Instance {
            path: item("std::string::String"),
            name: "len".to_string(),
            args: None,
            self_type_info: info("String"),
        }
    );
    let signature = FnSignature::new_free(item("a"), None);
    assert_eq!(signature.clone(), signature);
}

#[test]
fn install_registers_types_and_functions() {
    let mut context = Context::new();
    let module = Module {
        types: vec![string_type(100)],
        functions: vec![ModuleFunction { name: item("std::drop"), args: Some(1), hash: rune_ssa::context::Hash(200) }],
        instance_functions: vec![ModuleInstanceFunction {
            value_type: ValueType(7),
            name: "len".to_string(),
            args: Some(0),
            instance_type: info("String"),
            hash: rune_ssa::context::Hash(300),
        }],
    };
    context.install(module).unwrap();

    let expected = TypeInfo {
        name: item("std::string::String"),
        value_type: ValueType(7),
        type_info: info("String"),
    };
    assert_eq!(context.lookup_type(rune_ssa::context::Hash(100)), Some(&expected));
    assert_eq!(context.lookup_type(rune_ssa::context::Hash(200)), None);
    assert_eq!(context.iter_types(), vec![(rune_ssa::context::Hash(100), &expected)]);

    let mut functions = context.iter_functions();
    functions.sort_by_key(|(hash, _)| *hash);
    let free = FnSignature::Free { path: item("std::drop"), args: Some(1) };
    let instance = FnSignature::Instance {
        path: item("std::string::String"),
        name: "len".to_string(),
        args: Some(0),
        self_type_info: info("String"),
    };
    assert_eq!(functions, vec![(rune_ssa::context::Hash(200), &free), (rune_ssa::context::Hash(300), &instance)]);
}

#[test]
fn type_with_a_taken_hash_is_a_conflict() {
    let mut context = Context::new();
    let mut module = empty_module();
    module.types.push(string_type(100));
    module.types.push(ModuleType {
        value_type: ValueType(8),
        type_info: info("Bytes"),
        name: item("std::bytes::Bytes"),
        hash: rune_ssa::context::Hash(100),
    });
    module.functions.push(ModuleFunction { name: item("std::drop"), args: None, hash: rune_ssa::context::Hash(1) });
    let error = context.install(module).unwrap_err();
    assert_eq!(
        error,
        ContextError::ConflictingType { name: item("std::string::String"), existing: info("String") }
    );
    // the type that came later has taken the place, and nothing after it was installed
    assert_eq!(context.lookup_type(rune_ssa::context::Hash(100)).unwrap().value_type, ValueType(8));
    assert!(context.iter_functions().is_empty());
}

#[test]
fn function_with_a_taken_hash_is_a_conflict() {
    let mut context = Context::new();
    let mut module = empty_module();
    module.functions.push(ModuleFunction { name: item("a"), args: Some(2), hash: rune_ssa::context::Hash(5) });
    context.install(module).unwrap();
    let mut module = empty_module();
    module.functions.push(ModuleFunction { name: item("b"), args: None, hash: rune_ssa::context::Hash(5) });
    let error = context.install(module).unwrap_err();
    assert_eq!(
        error,
        ContextError::ConflictingFunction {
            signature: FnSignature::Free { path: item("a"), args: Some(2) },
            hash: rune_ssa::context::Hash(5),
        }
    );
    let b = FnSignature::Free { path: item("b"), args: None };
    assert_eq!(context.iter_functions(), vec![(rune_ssa::context::Hash(5), &b)]);
}

#[test]
fn instance_function_with_a_taken_hash_is_a_conflict() {
    let mut context = Context::new();
    let mut module = empty_module();
    module.types.push(string_type(100));
    module.functions.push(ModuleFunction { name: item("a"), args: Some(2), hash: rune_ssa::context::Hash(5) });
    module.instance_functions.push(ModuleInstanceFunction {
        value_type: ValueType(7),
        name: "len".to_string(),
        args: None,
        instance_type: info("String"),
        hash: rune_ssa::context::Hash(5),
    });
    let error = context.install(module).unwrap_err();
    assert_eq!(
        error,
        ContextError::ConflictingFunction {
            signature: FnSignature::Free { path: item("a"), args: Some(2) },
            hash: rune_ssa::context::Hash(5),
        }
    );
}

#[test]
fn instance_function_without_its_type_is_missing_an_instance() {
    let mut context = Context::new();
    let mut module = empty_module();
    module.types.push(string_type(100));
    module.instance_functions.push(ModuleInstanceFunction {
        value_type: ValueType(9),
        name: "len".to_string(),
        args: None,
        instance_type: info("Other"),
        hash: rune_ssa::context::Hash(300),
    });
    let error = context.install(module).unwrap_err();
    assert_eq!(error, ContextError::MissingInstance { instance_type: info("Other") });
    assert!(context.iter_functions().is_empty());
    assert_eq!(context.iter_types().len(), 1);
}
