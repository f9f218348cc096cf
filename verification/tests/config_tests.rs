use cell_sdk::configuration::cfg::{ConfigNode, Configuration, RootConfig, Types};
use cell_sdk::configuration::enums::{ModuleKey, ModuleValue, Schema};
use cell_sdk::configuration::error::ConfigurationError;
use cell_sdk::configuration::manager::Manager;
use cell_sdk::configuration::parser::{ConfigurationParser, DefaultParser, ParsedValue};

fn root_toml() -> RootConfig {
    RootConfig {
        types: vec![(String::from("Default"), Types { parent: None })],
        default_type: String::from("Default"),
        configs: vec![ConfigNode {
            modules: vec![(String::from("nacos"), String::from("nacos.toml"))],
            schema: Some(String::from("toml")),
        }],
        plugins: Vec::new(),
    }
}

fn root_layered() -> RootConfig {
    RootConfig {
        types: vec![
            (String::from("Default"), Types { parent: None }),
            (String::from("test"), Types { parent: Some(String::from("Default")) }),
            (String::from("test2"), Types { parent: Some(String::from("test")) }),
        ],
        default_type: String::from("Default"),
        configs: vec![
            ConfigNode {
                modules: vec![(String::from("nacos"), String::from("nacos.json"))],
                schema: None,
            },
            ConfigNode {
                modules: vec![(String::from("test"), String::from("test.json"))],
                schema: Some(String::from("json")),
            },
        ],
        plugins: Vec::new(),
    }
}

#[test]
pub fn test_toml() {
    let mut manager = Manager::new("./config_toml", "Default");
    let files = vec![String::from("./config_toml/Default/nacos.toml")];
    let exists = |p: &String| files.contains(p);
    manager.initialize(&root_toml(), &exists).unwrap();
    let cfg = manager.get_configuration_mut();
    let module = cfg.get_module(&String::from("nacos")).expect("module");
    assert_eq!(module.module_full_path, "./config_toml/Default/nacos.toml");
    assert_eq!(module.schema, Schema::TOML);
    let content = b"serverAddr = \"127.0.0.1:8848\"".to_vec();
    let v = cfg.get_config_object(&Schema::TOML, String::from("nacos"), content.clone()).ok().unwrap();
    match v {
        ParsedValue::Toml(t) => {
            let text = String::from_utf8(t.data().to_vec()).unwrap();
            let table: toml::Table = toml::from_str(&text).unwrap();
            println!("{:?}", table);
            assert_eq!(table["serverAddr"].as_str(), Some("127.0.0.1:8848"));
        }
        ParsedValue::Json(_) => panic!("expected toml"),
    }
}

#[test]
pub fn parser_it_works() {}

#[test]
fn inheritance_runs_from_base_to_type() {
    let cfg = Configuration::new("./config", "test2");
    let types = root_layered().get_config_types();
    let inh = cfg.build_inheritance_list(&types);
    assert_eq!(inh, vec![String::from("Default"), String::from("test"), String::from("test2")]);
}

#[test]
fn default_type_has_no_parent() {
    let root = RootConfig {
        types: vec![(String::from("Default"), Types { parent: Some(String::from("other")) })],
        default_type: String::from("Default"),
        configs: Vec::new(),
        plugins: Vec::new(),
    };
    let types = root.get_config_types();
    assert_eq!(types.len(), 1);
    assert_eq!(types[0].1, None);
}

#[test]
fn module_paths_follow_inheritance() {
    let mut cfg = Configuration::new("./config", "test2");
    let files = vec![
        String::from("./config/Default/nacos.json"),
        String::from("./config/test2/nacos.json"),
        String::from("./config/test/test.json"),
    ];
    let exists = |p: &String| files.contains(p);
    cfg.initialize(&root_layered(), &exists).ok().unwrap();
    let nacos = cfg.get_module(&String::from("nacos")).unwrap();
    assert_eq!(nacos.module_full_path, "./config/test2/nacos.json");
    assert_eq!(nacos.module_due_path, Some(String::from("./config/Default/nacos.json")));
    assert_eq!(nacos.schema, Schema::JSON);
    let test = cfg.get_module(&String::from("test")).unwrap();
    assert_eq!(test.module_full_path, "./config/test/test.json");
    assert_eq!(test.module_due_path, Some(String::from("./config/test/test.json")));
    assert!(cfg.get_module(&String::from("missing")).is_none());
}

#[test]
fn module_without_file_has_empty_path() {
    let mut cfg = Configuration::new("./config", "test2");
    let exists = |_p: &String| false;
    cfg.initialize(&root_layered(), &exists).ok().unwrap();
    let nacos = cfg.get_module(&String::from("nacos")).unwrap();
    assert_eq!(nacos.module_full_path, "");
    assert_eq!(nacos.module_due_path, None);
}

#[test]
fn later_group_replaces_module() {
    let root = RootConfig {
        types: vec![(String::from("Default"), Types { parent: None })],
        default_type: String::from("Default"),
        configs: vec![
            ConfigNode { modules: vec![(String::from("m"), String::from("a.json"))], schema: None },
            ConfigNode { modules: vec![(String::from("m"), String::from("b.toml"))], schema: Some(String::from("toml")) },
        ],
        plugins: Vec::new(),
    };
    let modules = root.get_modules();
    assert_eq!(modules.len(), 1);
    assert_eq!(modules[0].1.module_full_path, "b.toml");
    assert_eq!(modules[0].1.schema, Schema::TOML);
}

#[test]
fn schema_names() {
    assert_eq!(Schema::from_name(&String::from("json")), Schema::JSON);
    assert_eq!(Schema::from_name(&String::from("toml")), Schema::TOML);
    assert_eq!(Schema::TOML.to_name(), "toml");
    assert_eq!(Schema::JSON.to_name(), "json");
}

#[test]
fn parser_hands_back_in_its_format() {
    let mut p = DefaultParser::new(Schema::JSON);
    let v = p.parse_from(String::from("m"), b"{\"a\":1}".to_vec());
    match v {
        ParsedValue::Json(j) => assert_eq!(j.data(), b"{\"a\":1}"),
        ParsedValue::Toml(_) => panic!("expected json"),
    }
    assert_eq!(p.schema(), Schema::JSON);
    let key = ModuleKey::new(String::from("m"));
    assert_eq!(key.module_name, "m");
    let _value = ModuleValue::new(vec![1, 2]);
}

#[test]
fn new_with_init_reads_repository() {
    let files = vec![
        String::from("./config/Default/nacos.json"),
        String::from("./config/test2/test.json"),
    ];
    let exists = |p: &String| files.contains(p);
    let mut manager = Manager::new_with_init("./config", "test2", &root_layered(), &exists);
    let cfg = manager.get_configuration_mut();
    let nacos = cfg.get_module(&String::from("nacos")).expect("nacos");
    assert_eq!(nacos.module_full_path, "./config/Default/nacos.json");
    let test = cfg.get_module(&String::from("test")).expect("test");
    assert_eq!(test.module_full_path, "./config/test2/test.json");
    assert_eq!(test.schema, Schema::JSON);
}

#[test]
fn module_file_of_known_and_unknown_modules() {
    let cfg = Configuration::new("./config_toml", "Default");
    assert!(matches!(cfg.module_file(&String::from("nacos")), Err(ConfigurationError::ModuleNotExists)));
    let mut manager = Manager::new("./config_toml", "Default");
    let files = vec![String::from("./config_toml/Default/nacos.toml")];
    let exists = |p: &String| files.contains(p);
    manager.initialize(&root_toml(), &exists).unwrap();
    let cfg = manager.get_configuration();
    let (schema, path) = cfg.module_file(&String::from("nacos")).ok().unwrap();
    assert_eq!(schema, Schema::TOML);
    assert_eq!(path, "./config_toml/Default/nacos.toml");
    assert!(matches!(cfg.module_file(&String::from("other")), Err(ConfigurationError::ModuleNotExists)));
}
