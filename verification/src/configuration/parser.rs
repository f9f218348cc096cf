//! Parsers keep the contents of each module read, and hand them out in the
//! module's format.
use vstd::prelude::*;
use crate::configuration::enums::{Schema, ModuleKey, ModuleValue};
use crate::configuration::value::{JsonValue, TomlValue};
use crate::configuration::table::{table_map, table_wf, table_insert};

verus! {

/// The contents of a module in its format.
pub enum ParsedValue {
    Json(JsonValue),
    Toml(TomlValue),
}

/// `r` holds `data` in the format `schema`.
pub open spec fn parsed_as(r: ParsedValue, schema: Schema, data: Seq<u8>) -> bool {
    match schema {
        Schema::JSON => r matches ParsedValue::Json(v) && v.bytes() == data,
        Schema::TOML => r matches ParsedValue::Toml(v) && v.bytes() == data,
    }
}

/// Takes the contents of a module.
pub trait ConfigurationParser {
    /// The parser's own consistency condition.
    spec fn parser_inv(&self) -> bool;

    fn parse_from(&mut self, module_name: String, data: Vec<u8>) -> (r: ParsedValue)
        requires
            old(self).parser_inv(),
        ensures
            final(self).parser_inv(),
    ;
}

/// A parser for one format, with the contents it was given, by module.
pub struct DefaultParser {
    values: Vec<(String, ModuleValue)>,
    schema: Schema,
}

/// The contents kept, by module name.
pub open spec fn cached(t: Seq<(String, ModuleValue)>) -> Map<Seq<char>, Seq<u8>> {
    let m = table_map(t);
    Map::new(|k: Seq<char>| m.contains_key(k), |k: Seq<char>| m[k].bytes())
}

impl DefaultParser {
    /// A parser for `schema` that has been given nothing.
    pub fn new(schema: Schema) -> (r: Self)
        ensures
            r.wf(),
            r.schema_view() == schema,
            r.values_view() == Map::<Seq<char>, Seq<u8>>::empty(),
    {
        let r = Self { values: Vec::new(), schema };
        proof {
            assert(r.values_view() =~= Map::<Seq<char>, Seq<u8>>::empty());
        }
        r
    }

    /// The format.
    pub closed spec fn schema_view(&self) -> Schema {
        self.schema
    }

    /// The contents kept, by module name.
    pub closed spec fn values_view(&self) -> Map<Seq<char>, Seq<u8>> {
        cached(self.values@)
    }

    /// Each module is kept once.
    pub closed spec fn wf(&self) -> bool {
        table_wf(self.values@)
    }

    /// The format.
    pub fn schema(&self) -> (r: Schema)
        ensures
            r == self.schema_view(),
    {
        self.schema
    }
}

impl ConfigurationParser for DefaultParser {
    open spec fn parser_inv(&self) -> bool {
        self.wf()
    }

    /// Keeps `data` as the contents of `module_name` and hands it out in the
    /// parser's format.
    fn parse_from(&mut self, module_name: String, data: Vec<u8>) -> (r: ParsedValue)
        ensures
            final(self).values_view() == old(self).values_view().insert(module_name@, data@),
            final(self).schema_view() == old(self).schema_view(),
            parsed_as(r, old(self).schema_view(), data@),
    {
        let copy = crate::tree::keys::key_to_vec(data.as_slice());
        let value = ModuleValue::new(copy);
        let key = ModuleKey::new(module_name);
        let ghost name = key.module_name@;
        let ghost before = cached(self.values@);
        table_insert(&mut self.values, key.module_name, value);
        proof {
            assert(cached(self.values@) =~= before.insert(name, data@));
        }
        match self.schema {
            Schema::JSON => ParsedValue::Json(JsonValue::new(data)),
            Schema::TOML => ParsedValue::Toml(TomlValue::new(data)),
        }
    }
}

/// A registered parser.
pub enum ParserEnums {
    JSON(DefaultParser),
}

} // verus!
