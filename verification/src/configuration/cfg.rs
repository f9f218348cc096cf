//! Layered configuration: configuration types inherit from one another, and
//! each module's file is looked up along the inheritance list.
use vstd::prelude::*;
use crate::configuration::enums::{Schema, is_schema_name, schema_name};
use crate::configuration::parser::{DefaultParser, ConfigurationParser, ParsedValue, parsed_as};
use crate::configuration::error::{ConfigurationError, ConfigurationResult};
use crate::zktree::keyed::{unique_keys, has_key, lemma_keyed_at, lemma_keyed_update, lemma_keyed_push, map_get};
use crate::configuration::table::{table_map, table_wf, names_view, table_get, table_insert, find_name};
use crate::zktree::keyed::keyed_map;
use crate::tree::merkle::{path_join, path_join_spec};

verus! {

/// A declared configuration type and the type it inherits from.
pub struct Types {
    pub parent: Option<String>,
}

/// A group of configuration modules sharing a format: module names with
/// their paths, and the format's name (JSON when absent).
pub struct ConfigNode {
    pub modules: Vec<(String, String)>,
    pub schema: Option<String>,
}

/// An opaque plugin setting, carried along as parsed.
#[verifier::external_type_specification]
#[verifier::external_body]
pub struct ExJsonValue(serde_json::Value);

/// The root description of a configuration repository.
pub struct RootConfig {
    pub types: Vec<(String, Types)>,
    pub default_type: String,
    pub configs: Vec<ConfigNode>,
    pub plugins: Vec<(String, serde_json::Value)>,
}

/// An optional string as characters.
pub open spec fn opt_chars(o: Option<String>) -> Option<Seq<char>> {
    match o {
        Some(s) => Some(s@),
        None => None,
    }
}

/// The format named `name`, JSON unless it is `toml`.
pub open spec fn schema_of(name: Seq<char>) -> Schema {
    if name == "toml"@ {
        Schema::TOML
    } else {
        Schema::JSON
    }
}

/// The format of a group: the one it names, or JSON.
pub open spec fn node_schema(node: ConfigNode) -> Schema {
    match node.schema {
        Some(s) => schema_of(s@),
        None => Schema::JSON,
    }
}

/// What is known of a module: its file path, the first file found along the
/// inheritance list, and its format.
pub type ModuleView = (Seq<char>, Option<Seq<char>>, Schema);

/// The modules a group declares, none of them looked up yet.
pub open spec fn node_modules(node: ConfigNode) -> Map<Seq<char>, ModuleView> {
    let m = table_map(node.modules@);
    Map::new(|k: Seq<char>| m.contains_key(k), |k: Seq<char>| (m[k]@, None::<Seq<char>>, node_schema(node)))
}

/// The modules the groups declare, a later group's module replacing an
/// earlier one of the same name.
pub open spec fn declared_modules(configs: Seq<ConfigNode>) -> Map<Seq<char>, ModuleView>
    decreases configs.len(),
{
    if configs.len() == 0 {
        Map::empty()
    } else {
        declared_modules(configs.drop_last()).union_prefer_right(node_modules(configs.last()))
    }
}

impl RootConfig {
    /// Type and module names are unique, and formats are named right.
    pub open spec fn wf(&self) -> bool {
        &&& table_wf(self.types@)
        &&& forall|i: int| 0 <= i < self.configs@.len() ==> {
            &&& table_wf((#[trigger] self.configs@[i]).modules@)
            &&& (self.configs@[i].schema matches Some(s) ==> is_schema_name(s@))
        }
    }

    /// The declared types, each with the type it inherits from; `Default`
    /// inherits from none.
    pub open spec fn config_types_spec(&self) -> Map<Seq<char>, Option<Seq<char>>> {
        let m = table_map(self.types@);
        Map::new(
            |k: Seq<char>| m.contains_key(k),
            |k: Seq<char>| if k == "Default"@ { None } else { opt_chars(m[k].parent) },
        )
    }

    /// The declared types, each with the type it inherits from; `Default`
    /// inherits from none.
    pub fn get_config_types(&self) -> (r: Vec<(String, Option<String>)>)
        requires
            self.wf(),
        ensures
            table_wf(r@),
            types_view(r@) == self.config_types_spec(),
    {
        let mut ret: Vec<(String, Option<String>)> = Vec::new();
        let default_name = String::from_str("Default");
        proof {
            reveal_strlit("Default");
        }
        let mut i: usize = 0;
        while i < self.types.len()
            invariant
                i <= self.types@.len(),
                table_wf(self.types@),
                table_wf(ret@),
                default_name@ == "Default"@,
                forall|k: Seq<char>| #[trigger] table_map(ret@).contains_key(k) <==>
                    exists|j: int| 0 <= j < i && self.types@[j].0@ == k,
                forall|j: int| #![trigger self.types@[j]] 0 <= j < i ==> {
                    &&& table_map(ret@).contains_key(self.types@[j].0@)
                    &&& opt_chars(table_map(ret@)[self.types@[j].0@]) ==
                        if self.types@[j].0@ == "Default"@ { None } else { opt_chars(self.types@[j].1.parent) }
                },
            decreases self.types@.len() - i,
        {
            let k = self.types[i].0.clone();
            let parent: Option<String> = if k == default_name {
                None
            } else {
                match &self.types[i].1.parent {
                    Some(p) => Some(p.clone()),
                    None => None,
                }
            };
            let ghost before = table_map(ret@);
            table_insert(&mut ret, k, parent);
            proof {
                assert forall|j: int| #![trigger self.types@[j]] 0 <= j < i + 1 implies {
                    &&& table_map(ret@).contains_key(self.types@[j].0@)
                    &&& opt_chars(table_map(ret@)[self.types@[j].0@]) ==
                        if self.types@[j].0@ == "Default"@ { None } else { opt_chars(self.types@[j].1.parent) }
                } by {
                    if j < i && self.types@[j].0@ == self.types@[i as int].0@ {
                        assert(names_view(self.types@)[j].0 == names_view(self.types@)[i as int].0);
                    }
                }
                assert forall|k: Seq<char>| #[trigger] table_map(ret@).contains_key(k) <==>
                    exists|j: int| 0 <= j < i + 1 && self.types@[j].0@ == k by {
                    if table_map(ret@).contains_key(k) && k != self.types@[i as int].0@ {
                        assert(before.contains_key(k));
                    }
                }
            }
            i = i + 1;
        }
        proof {
            let m = table_map(self.types@);
            assert forall|k: Seq<char>| #[trigger] types_view(ret@).contains_key(k) <==> self.config_types_spec().contains_key(k) by {
                if m.contains_key(k) {
                    let j = choose|j: int| 0 <= j < names_view(self.types@).len() && #[trigger] names_view(self.types@)[j].0 == k;
                    assert(self.types@[j].0@ == k);
                }
                if table_map(ret@).contains_key(k) {
                    let j = choose|j: int| 0 <= j < i && self.types@[j].0@ == k;
                    assert(names_view(self.types@)[j].0 == k);
                }
            }
            assert forall|k: Seq<char>| #[trigger] types_view(ret@).contains_key(k) implies types_view(ret@)[k] == self.config_types_spec()[k] by {
                let j = choose|j: int| 0 <= j < i && self.types@[j].0@ == k;
                assert(names_view(self.types@)[j] == (self.types@[j].0@, self.types@[j].1));
                crate::zktree::keyed::lemma_keyed_at(names_view(self.types@), j);
            }
            assert(types_view(ret@) =~= self.config_types_spec());
        }
        ret
    }
}

/// A table of types with their parents, as a map of character sequences.
pub open spec fn types_view(t: Seq<(String, Option<String>)>) -> Map<Seq<char>, Option<Seq<char>>> {
    let m = table_map(t);
    Map::new(|k: Seq<char>| m.contains_key(k), |k: Seq<char>| opt_chars(m[k]))
}

/// A configuration module: its file path (once looked up, the file of the
/// most specific type that has it), the file of the most basic type that has
/// it, and its format.
pub struct ConfigModule {
    pub module_full_path: String,
    pub module_due_path: Option<String>,
    pub schema: Schema,
}

/// What is known of a module.
pub open spec fn module_view(m: ConfigModule) -> ModuleView {
    (m.module_full_path@, opt_chars(m.module_due_path), m.schema)
}

/// A table of modules, as a map of what is known of each.
pub open spec fn modules_view(t: Seq<(String, ConfigModule)>) -> Map<Seq<char>, ModuleView> {
    let m = table_map(t);
    Map::new(|k: Seq<char>| m.contains_key(k), |k: Seq<char>| module_view(m[k]))
}

impl ConfigModule {
    /// A module at `path_of_module` in the format named `schema`, not looked up
    /// yet.
    pub fn new(path_of_module: String, schema: String) -> (r: Self)
        requires
            is_schema_name(schema@),
        ensures
            module_view(r) == (path_of_module@, None::<Seq<char>>, schema_of(schema@)),
    {
        let s = Schema::from_name(&schema);
        proof {
            reveal_strlit("toml");
            reveal_strlit("json");
            assert("json"@ != "toml"@) by {
                assert("json"@[0] != "toml"@[0]);
            }
            assert(schema_of(schema@) == s);
        }
        Self { module_full_path: path_of_module, module_due_path: None, schema: s }
    }

    /// Sets the file path.
    pub fn set_full_path(&mut self, full: String)
        ensures
            final(self).module_full_path@ == full@,
            final(self).module_due_path == old(self).module_due_path,
            final(self).schema == old(self).schema,
    {
        self.module_full_path = full;
    }

    /// Sets the file of the most basic type.
    pub fn set_due_path(&mut self, path: String)
        ensures
            final(self).module_due_path == Some(path),
            final(self).module_full_path == old(self).module_full_path,
            final(self).schema == old(self).schema,
    {
        self.module_due_path = Some(path);
    }
}

impl RootConfig {
    /// The modules the groups declare, a later group's module replacing an
    /// earlier one of the same name; none is looked up yet.
    pub fn get_modules(&self) -> (r: Vec<(String, ConfigModule)>)
        requires
            self.wf(),
        ensures
            table_wf(r@),
            modules_view(r@) == declared_modules(self.configs@),
    {
        let mut ret: Vec<(String, ConfigModule)> = Vec::new();
        let mut i: usize = 0;
        proof {
            assert(modules_view(ret@) =~= declared_modules(self.configs@.subrange(0, 0)));
        }
        while i < self.configs.len()
            invariant
                i <= self.configs@.len(),
                self.wf(),
                table_wf(ret@),
                modules_view(ret@) == declared_modules(self.configs@.subrange(0, i as int)),
            decreases self.configs@.len() - i,
        {
            let data = &self.configs[i];
            let schema = match &data.schema {
                Some(s) => s.clone(),
                None => String::from_str("json"),
            };
            proof {
                reveal_strlit("json");
                reveal_strlit("toml");
                assert("json"@ != "toml"@) by {
                    assert("json"@[0] != "toml"@[0]);
                }
                assert(is_schema_name(schema@));
                assert(schema_of(schema@) == node_schema(*data));
            }
            let ghost base = modules_view(ret@);
            let ghost nm = node_modules(*data);
            let mut j: usize = 0;
            while j < data.modules.len()
                invariant
                    j <= data.modules@.len(),
                    table_wf(ret@),
                    table_wf(data.modules@),
                    is_schema_name(schema@),
                    schema_of(schema@) == node_schema(*data),
                    nm == node_modules(*data),
                    forall|k: Seq<char>| #[trigger] modules_view(ret@).contains_key(k) <==>
                        base.contains_key(k) || exists|m: int| 0 <= m < j && data.modules@[m].0@ == k,
                    forall|k: Seq<char>| #[trigger] modules_view(ret@).contains_key(k) ==>
                        modules_view(ret@)[k] == if nm.contains_key(k) && exists|m: int| 0 <= m < j && data.modules@[m].0@ == k { nm[k] } else { base[k] },
                decreases data.modules@.len() - j,
            {
                let (name, path) = (data.modules[j].0.clone(), data.modules[j].1.clone());
                let module = ConfigModule::new(path, schema.clone());
                let ghost before = modules_view(ret@);
                table_insert(&mut ret, name, module);
                proof {
                    let k0 = data.modules@[j as int].0@;
                    assert(names_view(data.modules@)[j as int] == (k0, data.modules@[j as int].1));
                    crate::zktree::keyed::lemma_keyed_at(names_view(data.modules@), j as int);
                    assert(nm.contains_key(k0));
                    assert forall|k: Seq<char>| #[trigger] modules_view(ret@).contains_key(k) <==>
                        base.contains_key(k) || exists|m: int| 0 <= m < j + 1 && data.modules@[m].0@ == k by {
                        if k == k0 {
                            assert(modules_view(ret@).contains_key(k));
                            assert(0 <= j < j + 1 && data.modules@[j as int].0@ == k);
                        } else {
                            assert(modules_view(ret@).contains_key(k) == before.contains_key(k));
                            if exists|m: int| 0 <= m < j + 1 && data.modules@[m].0@ == k {
                                let m = choose|m: int| 0 <= m < j + 1 && data.modules@[m].0@ == k;
                                assert(m < j);
                            }
                        }
                    }
                    assert forall|k: Seq<char>| #[trigger] modules_view(ret@).contains_key(k) implies
                        modules_view(ret@)[k] == if nm.contains_key(k) && exists|m: int| 0 <= m < j + 1 && data.modules@[m].0@ == k { nm[k] } else { base[k] } by {
                        if k == k0 {
                            assert(data.modules@[j as int].0@ == k);
                        } else {
                            assert(before.contains_key(k));
                            if exists|m: int| 0 <= m < j + 1 && data.modules@[m].0@ == k {
                                let m = choose|m: int| 0 <= m < j + 1 && data.modules@[m].0@ == k;
                                assert(m < j);
                            }
                        }
                    }
                }
                j = j + 1;
            }
            proof {
                let prefix = self.configs@.subrange(0, i as int + 1);
                assert(prefix.drop_last() =~= self.configs@.subrange(0, i as int));
                assert(prefix.last() == *data);
                assert forall|k: Seq<char>| #[trigger] nm.contains_key(k) implies exists|m: int| 0 <= m < data.modules@.len() && data.modules@[m].0@ == k by {
                    let m = choose|m: int| 0 <= m < names_view(data.modules@).len() && #[trigger] names_view(data.modules@)[m].0 == k;
                    assert(data.modules@[m].0@ == k);
                }
                assert forall|k: Seq<char>| (exists|m: int| 0 <= m < data.modules@.len() && data.modules@[m].0@ == k) implies #[trigger] nm.contains_key(k) by {
                    let m = choose|m: int| 0 <= m < data.modules@.len() && data.modules@[m].0@ == k;
                    assert(names_view(data.modules@)[m].0 == k);
                }
                assert(modules_view(ret@) =~= base.union_prefer_right(nm));
            }
            i = i + 1;
        }
        proof {
            assert(self.configs@.subrange(0, self.configs@.len() as int) =~= self.configs@);
        }
        ret
    }
}

/// The type `n` steps up the inheritance from `t`, if the chain gets that
/// far: a type missing from `types`, or without a parent, ends it.
pub open spec fn nth_ancestor(types: Map<Seq<char>, Option<Seq<char>>>, t: Seq<char>, n: nat) -> Option<Seq<char>>
    decreases n,
{
    if n == 0 {
        Some(t)
    } else {
        match nth_ancestor(types, t, (n - 1) as nat) {
            Some(a) => if types.contains_key(a) { types[a] } else { None },
            None => None,
        }
    }
}

/// Once the chain has ended it stays ended.
pub proof fn lemma_ancestor_ended(types: Map<Seq<char>, Option<Seq<char>>>, t: Seq<char>, a: nat, b: nat)
    requires
        a <= b,
        nth_ancestor(types, t, a) is None,
    ensures
        nth_ancestor(types, t, b) is None,
    decreases b - a,
{
    if a < b {
        lemma_ancestor_ended(types, t, a, (b - 1) as nat);
    }
}

/// The inheritance of `t` ends: following parents reaches a type with none.
pub open spec fn chain_ends(types: Map<Seq<char>, Option<Seq<char>>>, t: Seq<char>) -> bool {
    exists|n: nat| #[trigger] nth_ancestor(types, t, n) is None
}

/// The inheritance list of `t` when its chain has `m` types: the most basic
/// first, `t` last.
pub open spec fn inheritance_of(types: Map<Seq<char>, Option<Seq<char>>>, t: Seq<char>, m: nat) -> Seq<Seq<char>> {
    Seq::new(m, |i: int| nth_ancestor(types, t, (m - 1 - i) as nat)->Some_0)
}

/// `m` is the length of the chain of `t`.
pub open spec fn chain_length(types: Map<Seq<char>, Option<Seq<char>>>, t: Seq<char>, m: nat) -> bool {
    &&& nth_ancestor(types, t, m) is None
    &&& forall|j: nat| j < m ==> #[trigger] nth_ancestor(types, t, j) is Some
}

/// The inheritance list of `t` starts at a type without a parent, ends at
/// `t`, and each type after the first inherits from the one before it.
pub proof fn lemma_inheritance_shape(types: Map<Seq<char>, Option<Seq<char>>>, t: Seq<char>, m: nat)
    requires
        chain_length(types, t, m),
    ensures
        m >= 1,
        inheritance_of(types, t, m).last() == t,
        !types.contains_key(inheritance_of(types, t, m)[0]) || types[inheritance_of(types, t, m)[0]] is None,
        forall|i: int| 0 < i < m ==> types.contains_key(#[trigger] inheritance_of(types, t, m)[i])
            && types[inheritance_of(types, t, m)[i]] == Some(inheritance_of(types, t, m)[i - 1]),
{
    let inh = inheritance_of(types, t, m);
    assert(nth_ancestor(types, t, 0) == Some(t));
    assert(m != 0);
    assert(nth_ancestor(types, t, (m - 1) as nat) is Some);
    assert(nth_ancestor(types, t, m) is None);
    assert forall|i: int| 0 < i < m implies types.contains_key(#[trigger] inh[i])
        && types[inh[i]] == Some(inh[i - 1]) by {
        let j = (m - 1 - i) as nat;
        assert(nth_ancestor(types, t, j) is Some);
        assert(nth_ancestor(types, t, j + 1) is Some);
        assert((m - 1 - (i - 1)) as nat == j + 1);
    }
}

/// Strings as character sequences.
pub open spec fn strings_view(s: Seq<String>) -> Seq<Seq<char>> {
    Seq::new(s.len(), |i: int| s[i]@)
}

/// The inheritance list of `config_type`: it, preceded by its parent,
/// preceded by that one's parent, and so on.
fn inheritance_list(config_types: &Vec<(String, Option<String>)>, config_type: &String) -> (r: Vec<String>)
    requires
        table_wf(config_types@),
        chain_ends(types_view(config_types@), config_type@),
    ensures
        exists|m: nat| #[trigger] chain_length(types_view(config_types@), config_type@, m)
            && strings_view(r@) == inheritance_of(types_view(config_types@), config_type@, m),
{
    let ghost types = types_view(config_types@);
    let ghost t = config_type@;
    let ghost n0 = choose|n: nat| #[trigger] nth_ancestor(types, t, n) is None;
    let mut ret: Vec<String> = Vec::new();
    ret.push(config_type.clone());
    let mut current: String = config_type.clone();
    let ghost mut n: nat = 0;
    proof {
        if n0 == 0 {
            assert(nth_ancestor(types, t, 0) is Some);
        }
    }
    loop
        invariant_except_break
            n < n0,
        invariant
            table_wf(config_types@),
            types == types_view(config_types@),
            nth_ancestor(types, t, n0) is None,
            nth_ancestor(types, t, n) == Some(current@),
            forall|j: nat| j <= n ==> #[trigger] nth_ancestor(types, t, j) is Some,
            strings_view(ret@) == Seq::new(n + 1, |i: int| nth_ancestor(types, t, (n - i) as nat)->Some_0),
        ensures
            nth_ancestor(types, t, n + 1) is None,
            forall|j: nat| j <= n ==> #[trigger] nth_ancestor(types, t, j) is Some,
            strings_view(ret@) == Seq::new(n + 1, |i: int| nth_ancestor(types, t, (n - i) as nat)->Some_0),
        decreases n0 - n,
    {
        let parent = table_get(config_types, &current);
        match parent {
            None => {
                proof {
                    assert(!types.contains_key(current@));
                }
                break;
            }
            Some(p) => match p {
                None => {
                    proof {
                        assert(types.contains_key(current@));
                        assert(types[current@] is None);
                    }
                    break;
                }
                Some(internal) => {
                    let ghost before = strings_view(ret@);
                    let ghost old_ret = ret@;
                    let next = internal.clone();
                    let ghost next_view = next;
                    ret.insert(0, next);
                    assert(ret@ == old_ret.insert(0, next_view));
                    assert(strings_view(old_ret).len() == old_ret.len());
                    assert(before.len() == n + 1);
                    assert(old_ret.len() == n + 1);
                    current = internal.clone();
                    proof {
                        n = n + 1;
                        assert(nth_ancestor(types, t, n) == Some(current@));
                        if n >= n0 {
                            lemma_ancestor_ended(types, t, n0, n);
                        }
                        assert(strings_view(ret@) =~= Seq::new(n + 1, |i: int| nth_ancestor(types, t, (n - i) as nat)->Some_0)) by {
                            assert forall|i: int| 0 <= i < n + 1 implies strings_view(ret@)[i] == nth_ancestor(types, t, (n - i) as nat)->Some_0 by {
                                assert(ret@.len() == old_ret.len() + 1);
                                if i > 0 {
                                    assert(ret@[i] == old_ret[i - 1]);
                                    assert(before[i - 1] == old_ret[i - 1]@);
                                }
                            }
                        }
                    }
                }
            },
        }
    }
    proof {
        assert(chain_length(types, t, n + 1));
        assert(strings_view(ret@) =~= inheritance_of(types, t, n + 1));
    }
    ret
}

/// The file of a module declared at path `p` in the directory of type `t`
/// of the repository at `root`.
pub open spec fn candidate(root: Seq<char>, t: Seq<char>, p: Seq<char>) -> Seq<char> {
    path_join_spec(path_join_spec(root, t), p)
}

/// `found[i]` is what `exists_fn` answered for the file of the module in
/// the directory of the `i`-th type of `inh`.
pub open spec fn probed<E: Fn(&String) -> bool>(
    exists_fn: E,
    root: Seq<char>,
    inh: Seq<Seq<char>>,
    p: Seq<char>,
    found: Seq<bool>,
) -> bool {
    &&& found.len() == inh.len()
    &&& forall|i: int| 0 <= i < inh.len() ==> #[trigger] probe(exists_fn, candidate(root, inh[i], p), found[i])
}

/// `exists_fn` answered `b` for the path `path`.
pub open spec fn probe<E: Fn(&String) -> bool>(exists_fn: E, path: Seq<char>, b: bool) -> bool {
    exists|s: String| s@ == path && #[trigger] call_ensures(exists_fn, (&s,), b)
}

/// The last file found, or the empty path if none was.
pub open spec fn last_found(root: Seq<char>, inh: Seq<Seq<char>>, p: Seq<char>, found: Seq<bool>) -> Seq<char>
    decreases found.len(),
{
    if found.len() == 0 {
        Seq::empty()
    } else if found.last() {
        candidate(root, inh[found.len() - 1], p)
    } else {
        last_found(root, inh, p, found.drop_last())
    }
}

/// The first file found, if any was.
pub open spec fn first_found(root: Seq<char>, inh: Seq<Seq<char>>, p: Seq<char>, found: Seq<bool>) -> Option<Seq<char>>
    decreases found.len(),
{
    if found.len() == 0 {
        None
    } else {
        match first_found(root, inh, p, found.drop_last()) {
            Some(x) => Some(x),
            None => if found.last() { Some(candidate(root, inh[found.len() - 1], p)) } else { None },
        }
    }
}

/// Looks the module declared at `p` up along the inheritance list: its file
/// is the last found (that of the most specific type), the empty path if
/// none is, and its due file the first found.
pub fn look_up_module<E: Fn(&String) -> bool>(
    root: &String,
    inheritance: &Vec<String>,
    p: &String,
    path_exists: &E,
) -> (r: (String, Option<String>))
    requires
        forall|s: &String| call_requires(*path_exists, (s,)),
    ensures
        exists|found: Seq<bool>| {
            &&& #[trigger] probed(*path_exists, root@, strings_view(inheritance@), p@, found)
            &&& r.0@ == last_found(root@, strings_view(inheritance@), p@, found)
            &&& opt_chars(r.1) == first_found(root@, strings_view(inheritance@), p@, found)
        },
{
    let ghost inh = strings_view(inheritance@);
    let mut full = String::new();
    let mut due: Option<String> = None;
    let ghost mut found: Seq<bool> = Seq::empty();
    let mut i: usize = 0;
    while i < inheritance.len()
        invariant
            i <= inheritance@.len(),
            inh == strings_view(inheritance@),
            forall|s: &String| call_requires(*path_exists, (s,)),
            found.len() == i,
            forall|j: int| 0 <= j < i ==> #[trigger] probe(*path_exists, candidate(root@, inh[j], p@), found[j]),
            full@ == last_found(root@, inh, p@, found),
            opt_chars(due) == first_found(root@, inh, p@, found),
        decreases inheritance@.len() - i,
    {
        let dir = path_join(root.as_str(), inheritance[i].as_str());
        let temp = path_join(dir.as_str(), p.as_str());
        let ok = path_exists(&temp);
        proof {
            let nf = found.push(ok);
            assert(nf.drop_last() =~= found);
            assert(temp@ == candidate(root@, inh[i as int], p@));
            assert forall|j: int| 0 <= j < i + 1 implies #[trigger] probe(*path_exists, candidate(root@, inh[j], p@), nf[j]) by {
                if j == i {
                    assert(temp@ == candidate(root@, inh[j], p@) && call_ensures(*path_exists, (&temp,), nf[j]));
                } else {
                    assert(nf[j] == found[j]);
                }
            }
            found = nf;
        }
        if ok {
            if due.is_none() {
                due = Some(temp.clone());
            }
            full = temp;
        }
        i = i + 1;
    }
    proof {
        assert(probed(*path_exists, root@, inh, p@, found));
    }
    (full, due)
}

/// A configuration repository: its root and type, the parsers by format, and
/// once initialized, its modules and declared types.
pub struct Configuration {
    parser: Vec<(Schema, DefaultParser)>,
    config_module: Vec<(String, Vec<String>)>,
    modules: Vec<(String, ConfigModule)>,
    config_types: Vec<String>,
    repo_root: Option<String>,
    config_type: Option<String>,
    initialized: bool,
}

impl Configuration {
    /// The parsers, by format.
    pub closed spec fn parsers(&self) -> Seq<(Schema, DefaultParser)> {
        self.parser@
    }

    /// The formats that have a parser.
    pub closed spec fn parser_formats(&self) -> Set<Schema> {
        keyed_map(self.parser@).dom()
    }

    /// The modules, by name.
    pub closed spec fn modules_map(&self) -> Map<Seq<char>, ModuleView> {
        modules_view(self.modules@)
    }

    /// The declared types, in the order recorded.
    pub closed spec fn types_seen(&self) -> Seq<Seq<char>> {
        strings_view(self.config_types@)
    }

    /// The repository root.
    pub closed spec fn root_view(&self) -> Option<Seq<char>> {
        opt_chars(self.repo_root)
    }

    /// The configuration type.
    pub closed spec fn type_view(&self) -> Option<Seq<char>> {
        opt_chars(self.config_type)
    }

    /// Whether the repository has been read.
    pub closed spec fn is_initialized(&self) -> bool {
        self.initialized
    }

    /// Root and type are set, each format has one parser, of that format,
    /// and each module name occurs once.
    pub closed spec fn wf(&self) -> bool {
        &&& self.repo_root is Some
        &&& self.config_type is Some
        &&& unique_keys(self.parser@)
        &&& has_key(self.parser@, Schema::JSON)
        &&& has_key(self.parser@, Schema::TOML)
        &&& forall|i: int| 0 <= i < self.parser@.len() ==> {
            &&& (#[trigger] self.parser@[i]).1.schema_view() == self.parser@[i].0
            &&& self.parser@[i].1.wf()
        }
        &&& table_wf(self.modules@)
    }

    /// A repository at `repo_root` of type `config_type`, not read yet, with
    /// a JSON and a TOML parser.
    pub fn new(repo_root: &str, config_type: &str) -> (r: Self)
        ensures
            r.wf(),
            r.root_view() == Some(repo_root@),
            r.type_view() == Some(config_type@),
            !r.is_initialized(),
            r.modules_map() == Map::<Seq<char>, ModuleView>::empty(),
            r.types_seen() == Seq::<Seq<char>>::empty(),
            r.parser_formats() == set![Schema::JSON, Schema::TOML],
    {
        let mut ret = Configuration {
            parser: Vec::new(),
            config_module: Vec::new(),
            modules: Vec::new(),
            config_types: Vec::new(),
            repo_root: Some(String::from_str(repo_root)),
            config_type: Some(String::from_str(config_type)),
            initialized: false,
        };
        proof {
            assert(keyed_map(ret.parser@).dom() =~= Set::<Schema>::empty());
        }
        ret.init();
        proof {
            assert(ret.parser_formats() =~= set![Schema::JSON, Schema::TOML]);
            assert(ret.modules_map() =~= Map::<Seq<char>, ModuleView>::empty());
            assert(ret.types_seen() =~= Seq::<Seq<char>>::empty());
        }
        ret
    }

    /// Registers a JSON and a TOML parser.
    fn init(&mut self)
        requires
            old(self).repo_root is Some,
            old(self).config_type is Some,
            unique_keys(old(self).parser@),
            forall|i: int| 0 <= i < old(self).parser@.len() ==> {
                &&& (#[trigger] old(self).parser@[i]).1.schema_view() == old(self).parser@[i].0
                &&& old(self).parser@[i].1.wf()
            },
            table_wf(old(self).modules@),
        ensures
            final(self).wf(),
            final(self).modules == old(self).modules,
            final(self).config_types == old(self).config_types,
            final(self).repo_root == old(self).repo_root,
            final(self).config_type == old(self).config_type,
            final(self).initialized == old(self).initialized,
            keyed_map(final(self).parser@).dom() == keyed_map(old(self).parser@).dom().insert(Schema::JSON).insert(Schema::TOML),
    {
        let json = DefaultParser::new(Schema::JSON);
        let toml = DefaultParser::new(Schema::TOML);
        self.register_parser(Schema::JSON, json);
        self.register_parser(Schema::TOML, toml);
        proof {
            let t = self.parser@;
            assert(has_key(t, Schema::TOML));
        }
    }

    /// Makes `p` the parser of format `s`.
    fn register_parser(&mut self, s: Schema, p: DefaultParser)
        requires
            unique_keys(old(self).parser@),
            p.schema_view() == s,
            p.wf(),
            forall|i: int| 0 <= i < old(self).parser@.len() ==> {
                &&& (#[trigger] old(self).parser@[i]).1.schema_view() == old(self).parser@[i].0
                &&& old(self).parser@[i].1.wf()
            },
        ensures
            unique_keys(final(self).parser@),
            keyed_map(final(self).parser@) == keyed_map(old(self).parser@).insert(s, p),
            has_key(final(self).parser@, s),
            forall|k: Schema| has_key(old(self).parser@, k) ==> has_key(final(self).parser@, k),
            forall|i: int| 0 <= i < final(self).parser@.len() ==> {
                &&& (#[trigger] final(self).parser@[i]).1.schema_view() == final(self).parser@[i].0
                &&& final(self).parser@[i].1.wf()
            },
            final(self).modules == old(self).modules,
            final(self).config_types == old(self).config_types,
            final(self).repo_root == old(self).repo_root,
            final(self).config_type == old(self).config_type,
            final(self).initialized == old(self).initialized,
    {
        let ghost before = self.parser@;
        match self.find_parser(&s) {
            Some(i) => {
                self.parser.set(i, (s, p));
                proof {
                    lemma_keyed_update(before, i as int, (s, p));
                    assert(self.parser@[i as int].0 == s);
                    assert forall|k: Schema| has_key(before, k) implies has_key(self.parser@, k) by {
                        let j = choose|j: int| 0 <= j < before.len() && #[trigger] before[j].0 == k;
                        assert(self.parser@[j].0 == k);
                    }
                }
            }
            None => {
                self.parser.push((s, p));
                proof {
                    lemma_keyed_push(before, (s, p));
                    assert(self.parser@[before.len() as int].0 == s);
                    assert forall|k: Schema| has_key(before, k) implies has_key(self.parser@, k) by {
                        let j = choose|j: int| 0 <= j < before.len() && #[trigger] before[j].0 == k;
                        assert(self.parser@[j].0 == k);
                    }
                }
            }
        }
    }

    /// The position of the parser of format `s`.
    fn find_parser(&self, s: &Schema) -> (r: Option<usize>)
        ensures
            r matches Some(i) ==> i < self.parser@.len() && self.parser@[i as int].0 == *s,
            r is None ==> !has_key(self.parser@, *s),
    {
        let mut i: usize = 0;
        while i < self.parser.len()
            invariant
                i <= self.parser@.len(),
                forall|j: int| 0 <= j < i ==> (#[trigger] self.parser@[j]).0 != *s,
            decreases self.parser@.len() - i,
        {
            if self.parser[i].0 == *s {
                return Some(i);
            }
            i = i + 1;
        }
        None
    }

    /// The module named `module_name`, if there is one.
    pub fn get_module(&self, module_name: &String) -> (r: Option<&ConfigModule>)
        requires
            self.wf(),
        ensures
            r matches Some(m) ==> self.modules_map().contains_key(module_name@) && module_view(*m) == self.modules_map()[module_name@],
            r is None ==> !self.modules_map().contains_key(module_name@),
    {
        table_get(&self.modules, module_name)
    }

    /// The format and file of module `module_name`; `ModuleNotExists` when
    /// there is no such module.
    pub fn module_file(&self, module_name: &String) -> (r: ConfigurationResult<(Schema, String)>)
        requires
            self.wf(),
        ensures
            r is Err <==> !self.modules_map().contains_key(module_name@),
            r matches Err(e) ==> e is ModuleNotExists,
            r matches Ok((schema, path)) ==> {
                &&& schema == self.modules_map()[module_name@].2
                &&& path@ == self.modules_map()[module_name@].0
            },
    {
        match self.get_module(module_name) {
            None => Err(ConfigurationError::ModuleNotExists),
            Some(m) => Ok((m.schema, m.module_full_path.clone())),
        }
    }

    /// Hands the contents `data` of module `module_name` to the parser of
    /// format `schema`, which keeps them and gives them back in that format.
    pub fn get_config_object(&mut self, schema: &Schema, module_name: String, data: Vec<u8>) -> (r: ConfigurationResult<ParsedValue>)
        requires
            old(self).wf(),
        ensures
            final(self).wf(),
            final(self).modules_map() == old(self).modules_map(),
            final(self).types_seen() == old(self).types_seen(),
            r matches Ok(v) && parsed_as(v, *schema, data@),
    {
        match self.find_parser(schema) {
            Some(i) => {
                let ghost before = self.parser@;
                let mut entry = self.parser.remove(i);
                let v = entry.1.parse_from(module_name, data);
                self.parser.insert(i, entry);
                proof {
                    assert(self.parser@ =~= before.update(i as int, self.parser@[i as int]));
                    assert(self.parser@[i as int].0 == before[i as int].0);
                    assert(unique_keys(self.parser@)) by {
                        assert forall|a: int, b: int| 0 <= a < b < self.parser@.len() implies #[trigger] self.parser@[a].0 != #[trigger] self.parser@[b].0 by {
                            assert(self.parser@[a].0 == before[a].0 && self.parser@[b].0 == before[b].0);
                        }
                    }
                    assert(has_key(self.parser@, Schema::JSON)) by {
                        let j = choose|j: int| 0 <= j < before.len() && #[trigger] before[j].0 == Schema::JSON;
                        assert(self.parser@[j].0 == Schema::JSON);
                    }
                    assert(has_key(self.parser@, Schema::TOML)) by {
                        let j = choose|j: int| 0 <= j < before.len() && #[trigger] before[j].0 == Schema::TOML;
                        assert(self.parser@[j].0 == Schema::TOML);
                    }
                }
                return Ok(v);
            }
            None => {}
        }
        proof {
            let j = choose|j: int| 0 <= j < self.parser@.len() && #[trigger] self.parser@[j].0 == *schema;
        }
        Err(ConfigurationError::Unknown)
    }
}

/// What looking the modules of `declared` up along `inh` under `root` gives:
/// each declared module resolved by some answers of `exists_fn`, the others
/// of `before` unchanged.
pub open spec fn modules_resolved<E: Fn(&String) -> bool>(
    exists_fn: E,
    root: Seq<char>,
    inh: Seq<Seq<char>>,
    declared: Map<Seq<char>, ModuleView>,
    before: Map<Seq<char>, ModuleView>,
    after: Map<Seq<char>, ModuleView>,
) -> bool {
    &&& forall|k: Seq<char>| #[trigger] after.contains_key(k) <==> before.contains_key(k) || declared.contains_key(k)
    &&& forall|k: Seq<char>| #[trigger] after.contains_key(k) && !declared.contains_key(k) ==> after[k] == before[k]
    &&& forall|k: Seq<char>| #[trigger] declared.contains_key(k) ==> exists|found: Seq<bool>| {
        &&& #[trigger] probed(exists_fn, root, inh, declared[k].0, found)
        &&& after[k] == (last_found(root, inh, declared[k].0, found), first_found(root, inh, declared[k].0, found), declared[k].2)
    }
}

/// The module `k` of `declared` is resolved in `after` by some answers of
/// `exists_fn`.
pub open spec fn module_resolved<E: Fn(&String) -> bool>(
    exists_fn: E,
    root: Seq<char>,
    inh: Seq<Seq<char>>,
    declared: Map<Seq<char>, ModuleView>,
    after: Map<Seq<char>, ModuleView>,
    k: Seq<char>,
) -> bool {
    exists|found: Seq<bool>| {
        &&& #[trigger] probed(exists_fn, root, inh, declared[k].0, found)
        &&& after[k] == (last_found(root, inh, declared[k].0, found), first_found(root, inh, declared[k].0, found), declared[k].2)
    }
}

impl Configuration {
    /// The inheritance list of the configuration type: it, preceded by its
    /// parent, preceded by that one's parent, and so on.
    pub fn build_inheritance_list(&self, config_types: &Vec<(String, Option<String>)>) -> (r: Vec<String>)
        requires
            self.wf(),
            table_wf(config_types@),
            chain_ends(types_view(config_types@), self.type_view()->Some_0),
        ensures
            exists|m: nat| #[trigger] chain_length(types_view(config_types@), self.type_view()->Some_0, m)
                && strings_view(r@) == inheritance_of(types_view(config_types@), self.type_view()->Some_0, m),
    {
        let config_type = self.config_type.as_ref().unwrap();
        inheritance_list(config_types, config_type)
    }

    /// Looks each module of `root` up along `inheritance` under `root_path`
    /// (`path_exists` tells whether a file is there) and records it.
    pub fn build_module_path_map<E: Fn(&String) -> bool>(
        &mut self,
        root_path: &String,
        root: &RootConfig,
        inheritance: &Vec<String>,
        path_exists: &E,
    )
        requires
            old(self).wf(),
            root.wf(),
            forall|s: &String| call_requires(*path_exists, (s,)),
        ensures
            final(self).wf(),
            modules_resolved(*path_exists, root_path@, strings_view(inheritance@), declared_modules(root.configs@), old(self).modules_map(), final(self).modules_map()),
            final(self).types_seen() == old(self).types_seen(),
            final(self).root_view() == old(self).root_view(),
            final(self).type_view() == old(self).type_view(),
            final(self).is_initialized() == old(self).is_initialized(),
    {
        let modules = root.get_modules();
        let ghost declared = declared_modules(root.configs@);
        let ghost start = modules_view(self.modules@);
        let ghost inh = strings_view(inheritance@);
        let mut i: usize = 0;
        while i < modules.len()
            invariant
                i <= modules@.len(),
                self.wf(),
                table_wf(modules@),
                modules_view(modules@) == declared,
                self.config_types == old(self).config_types,
                self.repo_root == old(self).repo_root,
                self.config_type == old(self).config_type,
                self.initialized == old(self).initialized,
                start == old(self).modules_map(),
                inh == strings_view(inheritance@),
                forall|s: &String| call_requires(*path_exists, (s,)),
                forall|k: Seq<char>| #[trigger] self.modules_map().contains_key(k) <==>
                    start.contains_key(k) || exists|j: int| 0 <= j < i && modules@[j].0@ == k,
                forall|k: Seq<char>| #[trigger] self.modules_map().contains_key(k) && !(exists|j: int| 0 <= j < i && modules@[j].0@ == k)
                    ==> self.modules_map()[k] == start[k],
                forall|j: int| 0 <= j < i ==> #[trigger] module_resolved(*path_exists, root_path@, inh, declared, self.modules_map(), modules@[j].0@),
            decreases modules@.len() - i,
        {
            let name = &modules[i].0;
            let module = &modules[i].1;
            proof {
                assert(names_view(modules@)[i as int] == (modules@[i as int].0@, modules@[i as int].1));
                lemma_keyed_at(names_view(modules@), i as int);
                assert(declared[name@] == module_view(*module));
            }
            let (full, due) = look_up_module(root_path, inheritance, &module.module_full_path, path_exists);
            let ghost p = module.module_full_path@;
            let ghost found_i = choose|found: Seq<bool>| {
                &&& #[trigger] probed(*path_exists, root_path@, inh, p, found)
                &&& full@ == last_found(root_path@, inh, p, found)
                &&& opt_chars(due) == first_found(root_path@, inh, p, found)
            };
            let resolved = ConfigModule { module_full_path: full, module_due_path: due, schema: module.schema };
            let ghost before = self.modules_map();
            table_insert(&mut self.modules, name.clone(), resolved);
            proof {
                let k0 = name@;
                assert(self.modules_map() =~= before.insert(k0, module_view(resolved)));
                assert forall|k: Seq<char>| #[trigger] self.modules_map().contains_key(k) <==>
                    start.contains_key(k) || exists|j: int| 0 <= j < i + 1 && modules@[j].0@ == k by {
                    if k == k0 {
                        assert(modules@[i as int].0@ == k);
                    } else if exists|j: int| 0 <= j < i + 1 && modules@[j].0@ == k {
                        let j = choose|j: int| 0 <= j < i + 1 && modules@[j].0@ == k;
                        assert(j < i);
                    }
                }
                assert forall|k: Seq<char>| #[trigger] self.modules_map().contains_key(k) && !(exists|j: int| 0 <= j < i + 1 && modules@[j].0@ == k)
                    implies self.modules_map()[k] == start[k] by {
                    assert(k != modules@[i as int].0@);
                }
                assert forall|j: int| 0 <= j < i + 1 implies #[trigger] module_resolved(*path_exists, root_path@, inh, declared, self.modules_map(), modules@[j].0@) by {
                    if j < i {
                        assert(modules@[j].0@ != k0) by {
                            assert(names_view(modules@)[j].0 != names_view(modules@)[i as int].0);
                        }
                        assert(module_resolved(*path_exists, root_path@, inh, declared, before, modules@[j].0@));
                    } else {
                        assert(declared[modules@[j].0@].0 == p);
                        assert(probed(*path_exists, root_path@, inh, declared[modules@[j].0@].0, found_i));
                    }
                }
            }
            i = i + 1;
        }
        proof {
            let after = self.modules_map();
            assert forall|k: Seq<char>| #[trigger] declared.contains_key(k) <==> exists|j: int| 0 <= j < modules@.len() && modules@[j].0@ == k by {
                if declared.contains_key(k) {
                    let j = choose|j: int| 0 <= j < names_view(modules@).len() && #[trigger] names_view(modules@)[j].0 == k;
                    assert(modules@[j].0@ == k);
                }
                if exists|j: int| 0 <= j < modules@.len() && modules@[j].0@ == k {
                    let j = choose|j: int| 0 <= j < modules@.len() && modules@[j].0@ == k;
                    assert(names_view(modules@)[j].0 == k);
                }
            }
            assert forall|k: Seq<char>| #[trigger] declared.contains_key(k) implies exists|found: Seq<bool>| {
                &&& #[trigger] probed(*path_exists, root_path@, inh, declared[k].0, found)
                &&& after[k] == (last_found(root_path@, inh, declared[k].0, found), first_found(root_path@, inh, declared[k].0, found), declared[k].2)
            } by {
                let j = choose|j: int| 0 <= j < modules@.len() && modules@[j].0@ == k;
                assert(module_resolved(*path_exists, root_path@, inh, declared, after, modules@[j].0@));
            }
        }
    }
}

impl Configuration {
    /// Reads the repository described by `root_config`: its modules are
    /// looked up along the inheritance list of the configuration type
    /// (`path_exists` tells whether a file is there), its declared types are
    /// recorded, and the configuration is initialized.
    pub fn initialize<E: Fn(&String) -> bool>(&mut self, root_config: &RootConfig, path_exists: &E) -> (r: ConfigurationResult<()>)
        requires
            old(self).wf(),
            root_config.wf(),
            root_config.config_types_spec().contains_key(old(self).type_view()->Some_0),
            chain_ends(root_config.config_types_spec(), old(self).type_view()->Some_0),
            forall|s: &String| call_requires(*path_exists, (s,)),
        ensures
            r is Ok,
            final(self).wf(),
            final(self).is_initialized(),
            final(self).root_view() == old(self).root_view(),
            final(self).type_view() == old(self).type_view(),
            exists|m: nat| #[trigger] chain_length(root_config.config_types_spec(), old(self).type_view()->Some_0, m) && modules_resolved(
                *path_exists,
                old(self).root_view()->Some_0,
                inheritance_of(root_config.config_types_spec(), old(self).type_view()->Some_0, m),
                declared_modules(root_config.configs@),
                old(self).modules_map(),
                final(self).modules_map(),
            ),
            final(self).types_seen() == old(self).types_seen() + Seq::new(root_config.types@.len(), |i: int| root_config.types@[i].0@),
    {
        let root_path = self.repo_root.as_ref().unwrap().clone();
        let config_types = root_config.get_config_types();
        let inheritance = self.build_inheritance_list(&config_types);
        self.build_module_path_map(&root_path, root_config, &inheritance, path_exists);
        let ghost seen = self.types_seen();
        let ghost mods = self.modules_map();
        let mut i: usize = 0;
        while i < root_config.types.len()
            invariant
                i <= root_config.types@.len(),
                self.wf(),
                self.modules_map() == mods,
                self.root_view() == old(self).root_view(),
                self.type_view() == old(self).type_view(),
                self.types_seen() == seen + Seq::new(i as nat, |j: int| root_config.types@[j].0@),
            decreases root_config.types@.len() - i,
        {
            let ghost before = self.config_types@;
            self.config_types.push(root_config.types[i].0.clone());
            proof {
                assert(self.config_types@ == before.push(root_config.types@[i as int].0));
                assert(strings_view(self.config_types@) =~= strings_view(before).push(root_config.types@[i as int].0@));
                assert(self.types_seen() =~= seen + Seq::new((i + 1) as nat, |j: int| root_config.types@[j].0@));
            }
            i = i + 1;
        }
        self.initialized = true;
        Ok(())
    }
}

} // verus!
