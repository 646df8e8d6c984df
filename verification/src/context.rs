//! What a run context records about the functions and types that it offers.
//!
//! A context is filled module by module. A module comes as plain values:
//! the names of its items in full, and the hash of each, as the runtime has
//! computed them.
use vstd::prelude::*;

use crate::table::hashes_get;
use crate::table::hashes_insert;
use crate::table::hashes_new;
use crate::table::hashes_of;
use crate::table::signatures_entries;
use crate::table::signatures_insert;
use crate::table::signatures_new;
use crate::table::signatures_of;
use crate::table::types_entries;
use crate::table::types_get;
use crate::table::types_insert;
use crate::table::types_new;
use crate::table::types_of;

verus! {

/// The hash under which a function or a type is registered.
#[derive(Debug, Clone, Copy, PartialEq, Eq, Hash, PartialOrd, Ord, Structural)]
pub struct Hash(pub u64);

/// The identity of a type of values.
#[derive(Debug, Clone, Copy, PartialEq, Eq, Hash, PartialOrd, Ord, Structural)]
pub struct ValueType(pub u64);

/// How a type of values presents itself.
#[derive(Debug, PartialEq, Eq)]
pub struct ValueTypeInfo {
    /// The name of the type.
    pub name: String,
}

/// The path of an item, written in full.
#[derive(Debug, PartialEq, Eq)]
pub struct Item {
    /// The path.
    pub path: String,
}

/// Information on a registered type.
#[derive(Debug, PartialEq, Eq)]
pub struct TypeInfo {
    /// The name of the type.
    pub name: Item,
    /// The value type of the type.
    pub value_type: ValueType,
    /// Information on the type.
    pub type_info: ValueTypeInfo,
}

/// The signature of a registered function.
#[derive(Debug, PartialEq, Eq)]
pub enum FnSignature {
    /// A free function.
    Free {
        /// The path to the function.
        path: Item,
        /// The number of arguments, where it is fixed.
        args: Option<usize>,
    },
    /// A function of an instance.
    Instance {
        /// The path to the type of the instance.
        path: Item,
        /// The name of the function.
        name: String,
        /// The number of arguments, where it is fixed.
        args: Option<usize>,
        /// Information on the type of the instance.
        self_type_info: ValueTypeInfo,
    },
}

impl Clone for ValueTypeInfo {
    fn clone(&self) -> (copy: Self)
        ensures
            copy == *self,
    {
        ValueTypeInfo { name: self.name.clone() }
    }
}

impl Clone for Item {
    fn clone(&self) -> (copy: Self)
        ensures
            copy == *self,
    {
        Item { path: self.path.clone() }
    }
}

impl Clone for TypeInfo {
    fn clone(&self) -> (copy: Self)
        ensures
            copy == *self,
    {
        TypeInfo {
            name: self.name.clone(),
            value_type: self.value_type,
            type_info: self.type_info.clone(),
        }
    }
}

impl Clone for FnSignature {
    fn clone(&self) -> (copy: Self)
        ensures
            copy == *self,
    {
        match self {
            FnSignature::Free { path, args } => FnSignature::Free {
                path: path.clone(),
                args: *args,
            },
            FnSignature::Instance { path, name, args, self_type_info } => FnSignature::Instance {
                path: path.clone(),
                name: name.clone(),
                args: *args,
                self_type_info: self_type_info.clone(),
            },
        }
    }
}

impl FnSignature {
    /// The signature of a free function.
    pub fn new_free(path: Item, args: Option<usize>) -> (signature: Self)
        ensures
            signature == (FnSignature::Free { path, args }),
    {
        FnSignature::Free { path, args }
    }

    /// The signature of a function of an instance.
    pub fn new_inst(path: Item, name: String, args: Option<usize>, self_type_info: ValueTypeInfo) -> (signature:
        Self)
        ensures
            signature == (FnSignature::Instance { path, name, args, self_type_info }),
    {
        FnSignature::Instance { path, name, args, self_type_info }
    }
}

/// An error raised when a context is built.
#[derive(Debug, PartialEq, Eq)]
#[allow(inconsistent_fields)]
pub enum ContextError {
    /// A function with this hash is registered already.
    ConflictingFunction {
        /// The signature of the function that was registered.
        signature: FnSignature,
        /// The hash of the function.
        hash: Hash,
    },
    /// A function with this name is registered already.
    ConflictingFunctionName {
        /// The name of the function.
        name: Item,
    },
    /// A function of this name is registered for the instance already.
    ConflictingInstanceFunction {
        /// The type of the instance.
        type_info: ValueTypeInfo,
        /// The name of the function.
        name: String,
    },
    /// A module with this name is registered already.
    ConflictingModule {
        /// The name of the module.
        name: Item,
        /// The hash of the module.
        hash: Hash,
    },
    /// A type with this name is registered already.
    ConflictingType {
        /// The name of the type.
        name: Item,
        /// Information on the type that was registered.
        existing: ValueTypeInfo,
    },
    /// The instance of a function is not registered.
    MissingInstance {
        /// The type of the instance.
        instance_type: ValueTypeInfo,
    },
}

/// A type of a module.
#[derive(Debug)]
pub struct ModuleType {
    /// The value type.
    pub value_type: ValueType,
    /// Information on the type.
    pub type_info: ValueTypeInfo,
    /// The name of the type, with the path of the module.
    pub name: Item,
    /// The hash of the type.
    pub hash: Hash,
}

/// A free function of a module.
#[derive(Debug)]
pub struct ModuleFunction {
    /// The name of the function, with the path of the module.
    pub name: Item,
    /// The number of arguments, where it is fixed.
    pub args: Option<usize>,
    /// The hash of the function.
    pub hash: Hash,
}

/// A function that a module defines for the instances of a type.
#[derive(Debug)]
pub struct ModuleInstanceFunction {
    /// The value type of the instances.
    pub value_type: ValueType,
    /// The name of the function.
    pub name: String,
    /// The number of arguments, where it is fixed.
    pub args: Option<usize>,
    /// Information on the type of the instances.
    pub instance_type: ValueTypeInfo,
    /// The hash of the function.
    pub hash: Hash,
}

/// A module, as a context reads it.
#[derive(Debug)]
pub struct Module {
    /// The types, in the order in which they are installed.
    pub types: Vec<ModuleType>,
    /// The free functions, in the order in which they are installed.
    pub functions: Vec<ModuleFunction>,
    /// The functions of instances, in the order in which they are installed.
    pub instance_functions: Vec<ModuleInstanceFunction>,
}

/// What a context holds.
pub struct ContextView {
    /// The signature of each function, under the number of its hash.
    pub functions_info: Map<u64, FnSignature>,
    /// The type registered under the number of each hash.
    pub types: Map<u64, TypeInfo>,
    /// The number of the hash of each value type, under the number of the
    /// value type.
    pub types_rev: Map<u64, u64>,
}

/// What installing has come to: the context, and the error that stopped it.
pub type Installed = (ContextView, Option<ContextError>);

impl ContextView {
    /// The context that holds nothing.
    pub open spec fn empty() -> ContextView {
        ContextView { functions_info: Map::empty(), types: Map::empty(), types_rev: Map::empty() }
    }

    /// The type that is registered for the value type.
    pub open spec fn type_of(self, value_type: ValueType) -> Option<TypeInfo> {
        if self.types_rev.contains_key(value_type.0) && self.types.contains_key(
            self.types_rev[value_type.0],
        ) {
            Some(self.types[self.types_rev[value_type.0]])
        } else {
            None
        }
    }
}

/// The types from position `i` on are registered under their hashes, and
/// their hashes under their value types. A type whose hash is taken takes
/// the place of the type that was registered, and is an error.
pub open spec fn install_types(c: ContextView, types: Seq<ModuleType>, i: int) -> Installed
    decreases types.len() - i,
{
    if i < 0 || i >= types.len() {
        (c, None)
    } else {
        let ty = types[i];
        let info = TypeInfo { name: ty.name, value_type: ty.value_type, type_info: ty.type_info };
        let registered = ContextView { types: c.types.insert(ty.hash.0, info), ..c };
        if c.types.contains_key(ty.hash.0) {
            (
                registered,
                Some(
                    ContextError::ConflictingType {
                        name: c.types[ty.hash.0].name,
                        existing: c.types[ty.hash.0].type_info,
                    },
                ),
            )
        } else {
            install_types(
                ContextView {
                    types_rev: registered.types_rev.insert(ty.value_type.0, ty.hash.0),
                    ..registered
                },
                types,
                i + 1,
            )
        }
    }
}

/// The signature is registered under the hash. A signature whose hash is
/// taken takes the place of the one that was registered, and is an error.
pub open spec fn install_signature(c: ContextView, hash: Hash, signature: FnSignature) -> Installed {
    (
        ContextView { functions_info: c.functions_info.insert(hash.0, signature), ..c },
        if c.functions_info.contains_key(hash.0) {
            Some(ContextError::ConflictingFunction { signature: c.functions_info[hash.0], hash })
        } else {
            None
        },
    )
}

/// The free functions from position `i` on are registered under their
/// hashes.
pub open spec fn install_functions(c: ContextView, functions: Seq<ModuleFunction>, i: int) -> Installed
    decreases functions.len() - i,
{
    if i < 0 || i >= functions.len() {
        (c, None)
    } else {
        let function = functions[i];
        let installed = install_signature(
            c,
            function.hash,
            FnSignature::Free { path: function.name, args: function.args },
        );
        if installed.1 is Some {
            installed
        } else {
            install_functions(installed.0, functions, i + 1)
        }
    }
}

/// The functions of instances from position `i` on are registered under
/// their hashes, each with the name of the type that is registered for its
/// value type. A function for a value type without such a type is an error.
pub open spec fn install_instance_functions(
    c: ContextView,
    functions: Seq<ModuleInstanceFunction>,
    i: int,
) -> Installed
    decreases functions.len() - i,
{
    if i < 0 || i >= functions.len() {
        (c, None)
    } else {
        let function = functions[i];
        match c.type_of(function.value_type) {
            None => (
                c,
                Some(ContextError::MissingInstance { instance_type: function.instance_type }),
            ),
            Some(type_info) => {
                let installed = install_signature(
                    c,
                    function.hash,
                    FnSignature::Instance {
                        path: type_info.name,
                        name: function.name,
                        args: function.args,
                        self_type_info: type_info.type_info,
                    },
                );
                if installed.1 is Some {
                    installed
                } else {
                    install_instance_functions(installed.0, functions, i + 1)
                }
            },
        }
    }
}

/// `Context::install`: the types of the module are installed, then its free
/// functions, then its functions of instances, up to the first error.
pub open spec fn install(c: ContextView, module: Module) -> Installed {
    let types = install_types(c, module.types@, 0);
    if types.1 is Some {
        types
    } else {
        let functions = install_functions(types.0, module.functions@, 0);
        if functions.1 is Some {
            functions
        } else {
            install_instance_functions(functions.0, module.instance_functions@, 0)
        }
    }
}

/// The functions and types that a runtime offers.
pub struct Context {
    /// Information on functions.
    functions_info: hashbrown::HashMap<u64, FnSignature>,
    /// Registered types.
    types: hashbrown::HashMap<u64, TypeInfo>,
    /// Reverse lookup for types.
    types_rev: hashbrown::HashMap<u64, u64>,
}

impl View for Context {
    type V = ContextView;

    closed spec fn view(&self) -> ContextView {
        ContextView {
            functions_info: signatures_of(self.functions_info),
            types: types_of(self.types),
            types_rev: hashes_of(self.types_rev),
        }
    }
}

impl Default for Context {
    fn default() -> (context: Self)
        ensures
            context@ == ContextView::empty(),
    {
        Context::new()
    }
}

impl Context {
    /// A context that holds nothing.
    pub fn new() -> (context: Self)
        ensures
            context@ == ContextView::empty(),
    {
        let context = Context {
            functions_info: signatures_new(),
            types: types_new(),
            types_rev: hashes_new(),
        };
        proof {
            assert(context@.functions_info =~= Map::empty());
            assert(context@.types =~= Map::empty());
            assert(context@.types_rev =~= Map::empty());
        }
        context
    }

    /// The registered functions: each hash once, with its signature. The
    /// order is not determined.
    pub fn iter_functions(&self) -> (functions: Vec<(Hash, &FnSignature)>)
        ensures
            forall|i: int|
                0 <= i < functions@.len() ==> self@.functions_info.contains_pair(
                    (#[trigger] functions@[i]).0.0,
                    *functions@[i].1,
                ),
            forall|i: int, j: int|
                0 <= i < j < functions@.len() ==> (#[trigger] functions@[i]).0 != (
                #[trigger] functions@[j]).0,
            forall|key: u64| #[trigger]
                self@.functions_info.contains_key(key) ==> exists|i: int|
                    0 <= i < functions@.len() && (#[trigger] functions@[i]).0.0 == key,
    {
        signatures_entries(&self.functions_info)
    }

    /// The registered types: each hash once, with its type. The order is not
    /// determined.
    pub fn iter_types(&self) -> (types: Vec<(Hash, &TypeInfo)>)
        ensures
            forall|i: int|
                0 <= i < types@.len() ==> self@.types.contains_pair(
                    (#[trigger] types@[i]).0.0,
                    *types@[i].1,
                ),
            forall|i: int, j: int|
                0 <= i < j < types@.len() ==> (#[trigger] types@[i]).0 != (#[trigger] types@[j]).0,
            forall|key: u64| #[trigger]
                self@.types.contains_key(key) ==> exists|i: int|
                    0 <= i < types@.len() && (#[trigger] types@[i]).0.0 == key,
    {
        types_entries(&self.types)
    }

    /// The type registered under the hash.
    pub fn lookup_type(&self, hash: Hash) -> (type_info: Option<&TypeInfo>)
        ensures
            type_info == (if self@.types.contains_key(hash.0) {
                Some(&self@.types[hash.0])
            } else {
                None
            }),
    {
        types_get(&self.types, hash.0)
    }

    /// Register the signature under the hash.
    fn install_signature(&mut self, hash: Hash, signature: FnSignature) -> (result: Result<
        (),
        ContextError,
    >)
        ensures
            final(self)@ == install_signature(old(self)@, hash, signature).0,
            result == (match install_signature(old(self)@, hash, signature).1 {
                None => Ok(()),
                Some(error) => Err(error),
            }),
    {
        if let Some(old) = signatures_insert(&mut self.functions_info, hash.0, signature) {
            return Err(ContextError::ConflictingFunction { signature: old, hash });
        }
        Ok(())
    }

    /// Install the module: its types, then its free functions, then its
    /// functions of instances, up to the first that cannot be registered.
    pub fn install(&mut self, module: Module) -> (result: Result<(), ContextError>)
        ensures
            final(self)@ == install(old(self)@, module).0,
            result == (match install(old(self)@, module).1 {
                None => Ok(()),
                Some(error) => Err(error),
            }),
    {
        let ghost start = self@;
        let mut i: usize = 0;
        while i < module.types.len()
            invariant
                start == old(self)@,
                i <= module.types@.len(),
                install_types(self@, module.types@, i as int) == install_types(
                    start,
                    module.types@,
                    0,
                ),
            decreases module.types.len() - i,
        {
            let ty = &module.types[i];
            let type_info = TypeInfo {
                name: ty.name.clone(),
                value_type: ty.value_type,
                type_info: ty.type_info.clone(),
            };
            if let Some(existing) = types_insert(&mut self.types, ty.hash.0, type_info) {
                return Err(
                    ContextError::ConflictingType {
                        name: existing.name,
                        existing: existing.type_info,
                    },
                );
            }
            hashes_insert(&mut self.types_rev, ty.value_type.0, ty.hash.0);
            i += 1;
        }
        let ghost typed = self@;
        let mut i: usize = 0;
        while i < module.functions.len()
            invariant
                start == old(self)@,
                install_types(start, module.types@, 0) == (typed, None::<ContextError>),
                i <= module.functions@.len(),
                install_functions(self@, module.functions@, i as int) == install_functions(
                    typed,
                    module.functions@,
                    0,
                ),
            decreases module.functions.len() - i,
        {
            let function = &module.functions[i];
            let signature = FnSignature::new_free(function.name.clone(), function.args);
            match self.install_signature(function.hash, signature) {
                Ok(_) => {},
                Err(error) => {
                    return Err(error);
                },
            }
            i += 1;
        }
        let ghost filled = self@;
        let mut i: usize = 0;
        while i < module.instance_functions.len()
            invariant
                start == old(self)@,
                install_types(start, module.types@, 0) == (typed, None::<ContextError>),
                install_functions(typed, module.functions@, 0) == (filled, None::<ContextError>),
                i <= module.instance_functions@.len(),
                install_instance_functions(self@, module.instance_functions@, i as int)
                    == install_instance_functions(filled, module.instance_functions@, 0),
            decreases module.instance_functions.len() - i,
        {
            let function = &module.instance_functions[i];
            let found = match hashes_get(&self.types_rev, function.value_type.0) {
                Some(hash) => types_get(&self.types, hash),
                None => None,
            };
            let signature = match found {
                Some(type_info) => FnSignature::new_inst(
                    type_info.name.clone(),
                    function.name.clone(),
                    function.args,
                    type_info.type_info.clone(),
                ),
                None => {
                    return Err(
                        ContextError::MissingInstance {
                            instance_type: function.instance_type.clone(),
                        },
                    );
                },
            };
            match self.install_signature(function.hash, signature) {
                Ok(_) => {},
                Err(error) => {
                    return Err(error);
                },
            }
            i += 1;
        }
        Ok(())
    }
}

} // verus!
