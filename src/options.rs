use vstd::prelude::*;

verus! {

/// Decompiler configuration, by schema version.
#[derive(Clone, Debug)]
pub enum DecompileOptions {
    V1(V1DecompileOptions),
    V2(V2DecompileOptions),
}

/// How the decompiler names local identifiers.
#[derive(Clone, Copy, Debug, PartialEq, Eq, Structural)]
pub enum V1RenamingType {
    NoRenaming,
    Unique,
    UniqueValueBased,
}

/// The first option schema: independent toggles, each left to the service's
/// default when absent.
#[derive(Clone, Debug, Default)]
pub struct V1DecompileOptions {
    pub renaming_type: Option<V1RenamingType>,
    pub remove_dot_zero: Option<bool>,
    pub remove_function_entry_note: Option<bool>,
    pub swap_constant_position: Option<bool>,
    pub inline_while_conditions: Option<bool>,
    pub show_function_line_defined: Option<bool>,
    pub remove_useless_numeric_for_step: Option<bool>,
    pub remove_useless_return_in_function: Option<bool>,
    pub sugar_recursive_local_functions: Option<bool>,
    pub sugar_local_functions: Option<bool>,
    pub sugar_global_functions: Option<bool>,
    pub sugar_generic_for: Option<bool>,
    pub show_function_debug_name: Option<bool>,
    pub sugar_repeat_loops: Option<bool>,
    pub upvalue_comment: Option<bool>,
}

/// The second option schema, which has no options yet.
#[derive(Clone, Copy, Debug, Default, PartialEq, Eq, Structural)]
pub struct V2DecompileOptions {}

impl V1RenamingType {
    /// The name of the strategy on the wire.
    pub fn wire_name(&self) -> (r: &'static str)
        ensures
            r@ == match self {
                V1RenamingType::NoRenaming => "NONE"@,
                V1RenamingType::Unique => "UNIQUE"@,
                V1RenamingType::UniqueValueBased => "UNIQUE_VALUE_BASED"@,
            },
    {
        match self {
            V1RenamingType::NoRenaming => "NONE",
            V1RenamingType::Unique => "UNIQUE",
            V1RenamingType::UniqueValueBased => "UNIQUE_VALUE_BASED",
        }
    }
}

} // verus!
