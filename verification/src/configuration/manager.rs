//! The entry point to a configuration repository.
use vstd::prelude::*;
use crate::configuration::cfg::{Configuration, RootConfig, chain_ends, chain_length, modules_resolved, inheritance_of, declared_modules};
use crate::configuration::error::ConfigurationResult;

verus! {

/// A configuration repository at a root, of a configuration type.
pub struct Manager {
    pub root_path: String,
    pub config_type: String,
    pub current_configuration: Configuration,
}

impl Manager {
    /// The manager of the repository at `root_path`, of type `config_type`,
    /// not read yet.
    pub fn new(root_path: &str, config_type: &str) -> (r: Self)
        ensures
            r.root_path@ == root_path@,
            r.config_type@ == config_type@,
            r.current_configuration.wf(),
            r.current_configuration.root_view() == Some(root_path@),
            r.current_configuration.type_view() == Some(config_type@),
            !r.current_configuration.is_initialized(),
            r.current_configuration.modules_map() == Map::<Seq<char>, crate::configuration::cfg::ModuleView>::empty(),
    {
        let cfg = Configuration::new(root_path, config_type);
        Self { root_path: String::from_str(root_path), config_type: String::from_str(config_type), current_configuration: cfg }
    }

    /// The manager of the repository at `root_path`, of type `config_type`,
    /// read from `root_config` at once.
    pub fn new_with_init<E: Fn(&String) -> bool>(root_path: &str, config_type: &str, root_config: &RootConfig, path_exists: &E) -> (r: Self)
        requires
            root_config.wf(),
            root_config.config_types_spec().contains_key(config_type@),
            chain_ends(root_config.config_types_spec(), config_type@),
            forall|s: &String| call_requires(*path_exists, (s,)),
        ensures
            r.root_path@ == root_path@,
            r.config_type@ == config_type@,
            r.current_configuration.wf(),
            r.current_configuration.is_initialized(),
            r.current_configuration.root_view() == Some(root_path@),
            r.current_configuration.type_view() == Some(config_type@),
            exists|m: nat| #[trigger] chain_length(root_config.config_types_spec(), config_type@, m) && modules_resolved(
                *path_exists,
                root_path@,
                inheritance_of(root_config.config_types_spec(), config_type@, m),
                declared_modules(root_config.configs@),
                Map::<Seq<char>, crate::configuration::cfg::ModuleView>::empty(),
                r.current_configuration.modules_map(),
            ),
    {
        let mut m = Manager::new(root_path, config_type);
        let _ = m.initialize(root_config, path_exists);
        m
    }

    /// Reads the repository described by `root_config`, as
    /// `Configuration::initialize` does.
    pub fn initialize<E: Fn(&String) -> bool>(&mut self, root_config: &RootConfig, path_exists: &E) -> (r: ConfigurationResult<()>)
        requires
            old(self).current_configuration.wf(),
            root_config.wf(),
            root_config.config_types_spec().contains_key(old(self).current_configuration.type_view()->Some_0),
            chain_ends(root_config.config_types_spec(), old(self).current_configuration.type_view()->Some_0),
            forall|s: &String| call_requires(*path_exists, (s,)),
        ensures
            r is Ok,
            final(self).root_path == old(self).root_path,
            final(self).config_type == old(self).config_type,
            final(self).current_configuration.wf(),
            final(self).current_configuration.is_initialized(),
            final(self).current_configuration.root_view() == old(self).current_configuration.root_view(),
            final(self).current_configuration.type_view() == old(self).current_configuration.type_view(),
            exists|m: nat| #[trigger] chain_length(root_config.config_types_spec(), old(self).current_configuration.type_view()->Some_0, m) && modules_resolved(
                *path_exists,
                old(self).current_configuration.root_view()->Some_0,
                inheritance_of(root_config.config_types_spec(), old(self).current_configuration.type_view()->Some_0, m),
                declared_modules(root_config.configs@),
                old(self).current_configuration.modules_map(),
                final(self).current_configuration.modules_map(),
            ),
    {
        self.current_configuration.initialize(root_config, path_exists)
    }

    /// The configuration.
    pub fn get_configuration(&self) -> (r: &Configuration)
        ensures
            *r == self.current_configuration,
    {
        &self.current_configuration
    }

    /// The configuration, to change.
    pub fn get_configuration_mut(&mut self) -> (r: &mut Configuration)
        ensures
            *r == old(self).current_configuration,
            final(self).current_configuration == *final(r),
            final(self).root_path == old(self).root_path,
            final(self).config_type == old(self).config_type,
    {
        &mut self.current_configuration
    }
}

} // verus!
