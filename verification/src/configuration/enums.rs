//! Configuration formats and the cached contents of configuration modules.
use vstd::prelude::*;

verus! {

/// The format of a configuration module.
#[derive(PartialEq, Eq, Structural, Clone, Copy, Debug, Hash)]
pub enum Schema {
    JSON,
    TOML,
}

/// The name of a format: `json` or `toml`.
pub open spec fn schema_name(s: Schema) -> Seq<char> {
    match s {
        Schema::JSON => "json"@,
        Schema::TOML => "toml"@,
    }
}

/// `name` names a format.
pub open spec fn is_schema_name(name: Seq<char>) -> bool {
    name == "json"@ || name == "toml"@
}

impl Schema {
    /// The format named `value`.
    pub fn from_name(value: &String) -> (r: Schema)
        requires
            is_schema_name(value@),
        ensures
            schema_name(r) == value@,
    {
        proof {
            reveal_strlit("json");
            reveal_strlit("toml");
        }
        let json = String::from_str("json");
        if *value == json {
            Schema::JSON
        } else {
            Schema::TOML
        }
    }

    /// The name of the format.
    pub fn to_name(&self) -> (r: String)
        ensures
            r@ == schema_name(*self),
    {
        match self {
            Schema::JSON => String::from_str("json"),
            Schema::TOML => String::from_str("toml"),
        }
    }
}

/// The name of a configuration module, as a cache key.
pub struct ModuleKey {
    pub module_name: String,
}

impl ModuleKey {
    pub fn new(module_name: String) -> (r: Self)
        ensures
            r.module_name@ == module_name@,
    {
        Self { module_name }
    }
}

/// The raw contents of a configuration module.
pub struct ModuleValue {
    data: Vec<u8>,
}

impl ModuleValue {
    pub fn new(data: Vec<u8>) -> (r: Self)
        ensures
            r.bytes() == data@,
    {
        Self { data }
    }

    /// The contents.
    pub closed spec fn bytes(&self) -> Seq<u8> {
        self.data@
    }
}

} // verus!
