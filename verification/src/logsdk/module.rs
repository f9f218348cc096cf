//! Logging modules: a name, an index and a level.
use vstd::prelude::*;
use crate::logsdk::common::LogLevel;
use crate::logsdk::text::{signed_decimal, signed_decimal_string};

verus! {

/// A module as log filters see it.
pub trait ModuleTrait {
    fn index(&self) -> u16;
    fn name(&self) -> String;
}

/// A module that logs.
pub trait Module {
    fn name(&self) -> &'static str;
    fn index(&self) -> i16;
    fn log_level(&self) -> LogLevel;
}

/// A module with its index, name and level.
#[derive(Clone, Copy)]
pub struct CellModule {
    pub index: i16,
    pub name: &'static str,
    pub log_level: LogLevel,
}

impl CellModule {
    pub fn new(index: i16, name: &'static str, log_level: LogLevel) -> (r: CellModule)
        ensures
            r.index == index,
            r.name@ == name@,
            r.log_level == log_level,
    {
        CellModule { index, name, log_level }
    }

    /// How the module shows in messages: `module_name:<name>,index:<index>`.
    pub fn describe(&self) -> (r: String)
        ensures
            r@ == "module_name:"@ + self.name@ + ",index:"@ + signed_decimal(self.index as int),
    {
        let mut r = String::from_str("module_name:");
        r.append(self.name);
        r.append(",index:");
        let d = signed_decimal_string(self.index as i64);
        r.append(d.as_str());
        r
    }
}

impl Module for CellModule {
    fn name(&self) -> (r: &'static str)
        ensures
            r@ == self.name@,
    {
        self.name
    }

    fn index(&self) -> (r: i16)
        ensures
            r == self.index,
    {
        self.index
    }

    fn log_level(&self) -> (r: LogLevel)
        ensures
            r == self.log_level,
    {
        self.log_level
    }
}

} // verus!
