//! The contents of a configuration module, by format.
use vstd::prelude::*;
use crate::configuration::error::ConfigurationResult;

verus! {

/// A configuration value that can be decoded into a `T`.
pub trait ConfigValueTrait<T> {
    fn as_object(&self) -> ConfigurationResult<T>;
}

/// The contents of a JSON module.
pub struct JsonValue {
    data: Vec<u8>,
}

impl JsonValue {
    pub fn new(data: Vec<u8>) -> (r: Self)
        ensures
            r.bytes() == data@,
    {
        Self { data }
    }

    /// The contents.
    pub closed spec fn bytes(&self) -> Seq<u8> {
        self.data@
    }

    /// The contents, to decode.
    pub fn data(&self) -> (r: &[u8])
        ensures
            r@ == self.bytes(),
    {
        self.data.as_slice()
    }
}

/// The contents of a TOML module.
pub struct TomlValue {
    data: Vec<u8>,
}

impl TomlValue {
    pub fn new(data: Vec<u8>) -> (r: Self)
        ensures
            r.bytes() == data@,
    {
        Self { data }
    }

    /// The contents.
    pub closed spec fn bytes(&self) -> Seq<u8> {
        self.data@
    }

    /// The contents, to decode.
    pub fn data(&self) -> (r: &[u8])
        ensures
            r@ == self.bytes(),
    {
        self.data.as_slice()
    }
}

} // verus!
