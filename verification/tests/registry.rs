use scripthost::registry::{ConfigError, Descriptor, Kind, Mode, Registry, Scope};

fn function(name: &str) -> Descriptor {
    Descriptor {
        name: name.to_string(),
        kind: Kind::Function,
        group: None,
        target: None,
        exported: true,
        global: false,
        enabled: true,
        precedence: 0,
    }
}

fn operator(token: &str, precedence: u8) -> Descriptor {
    Descriptor { kind: Kind::Operator, global: true, precedence, ..function(token) }
}

fn module(q: &str) -> Scope {
    Scope::Module(q.to_string())
}

fn group(q: &str, g: &str) -> Scope {
    Scope::Group(q.to_string(), g.to_string())
}

fn find(reg: &Registry, scope: Scope, name: &str) -> Option<usize> {
    reg.resolve(&scope, &name.to_string())
}

#[test]
fn namespaced_entry_needs_its_qualifier() {
    let mut reg = Registry::new("sh".to_string(), Mode::Namespaced);
    assert_eq!(reg.register(function("open")), Ok(true));
    assert_eq!(find(&reg, module("sh"), "open"), Some(0));
    assert_eq!(find(&reg, Scope::Bare, "open"), None);
    assert_eq!(find(&reg, Scope::Bare, "never_defined"), None);
    assert_eq!(find(&reg, module("other"), "open"), None);
    assert_eq!(find(&reg, group("sh", "io"), "open"), None);
}

#[test]
fn global_flag_adds_the_bare_form() {
    let mut reg = Registry::new("sh".to_string(), Mode::Namespaced);
    assert_eq!(reg.register(function("open")), Ok(true));
    assert_eq!(reg.register(Descriptor { global: true, ..function("line") }), Ok(true));
    assert_eq!(find(&reg, Scope::Bare, "line"), Some(1));
    assert_eq!(find(&reg, module("sh"), "line"), Some(1));
    assert_eq!(reg.len(), 2);
    assert_eq!(reg.mode(), Mode::Namespaced);
    assert_eq!(reg.get(1).unwrap().name, "line");
    assert!(reg.get(2).is_none());
}

#[test]
fn global_flag_is_for_functions_and_operators() {
    let mut reg = Registry::new("sh".to_string(), Mode::Namespaced);
    let constant = Descriptor { kind: Kind::Constant, global: true, ..function("LIMIT") };
    assert_eq!(reg.register(constant), Ok(true));
    assert_eq!(find(&reg, Scope::Bare, "LIMIT"), None);
    assert_eq!(find(&reg, module("sh"), "LIMIT"), Some(0));
}

#[test]
fn disabled_group_is_absent() {
    let mut reg = Registry::new("sh".to_string(), Mode::Namespaced);
    assert_eq!(reg.register(Descriptor { enabled: false, ..function("gated") }), Ok(false));
    assert_eq!(reg.len(), 0);
    assert_eq!(find(&reg, module("sh"), "gated"), find(&reg, module("sh"), "never_defined"));
    assert_eq!(find(&reg, Scope::Bare, "gated"), None);
    assert_eq!(reg.register(function("gated")), Ok(true));
    assert_eq!(find(&reg, module("sh"), "gated"), Some(0));
}

#[test]
fn helper_that_is_not_exported_is_invisible() {
    let mut reg = Registry::new("sh".to_string(), Mode::MergeGlobal);
    assert_eq!(reg.register(Descriptor { exported: false, ..function("helper") }), Ok(false));
    assert_eq!(find(&reg, Scope::Bare, "helper"), None);
    assert_eq!(reg.len(), 0);
}

#[test]
fn merged_table_is_bare_and_keeps_groups_inert() {
    let mut reg = Registry::new("sh".to_string(), Mode::MergeGlobal);
    assert_eq!(reg.register(function("top")), Ok(true));
    let nested = Descriptor { group: Some("inner".to_string()), ..function("deep") };
    assert_eq!(reg.register(nested), Ok(true));
    assert_eq!(find(&reg, Scope::Bare, "top"), Some(0));
    assert_eq!(find(&reg, module("sh"), "top"), None);
    assert_eq!(find(&reg, Scope::Bare, "deep"), None);
    assert_eq!(find(&reg, module("sh"), "deep"), None);
    assert_eq!(find(&reg, group("sh", "inner"), "deep"), None);
}

#[test]
fn nested_group_needs_the_whole_path() {
    let mut reg = Registry::new("sh".to_string(), Mode::Namespaced);
    let nested = Descriptor { group: Some("inner".to_string()), ..function("deep") };
    assert_eq!(reg.register(nested), Ok(true));
    assert_eq!(reg.register(function("deep")), Ok(true));
    assert_eq!(find(&reg, group("sh", "inner"), "deep"), Some(0));
    assert_eq!(find(&reg, module("sh"), "deep"), Some(1));
    assert_eq!(find(&reg, group("sh", "outer"), "deep"), None);
    assert_eq!(find(&reg, Scope::Bare, "deep"), None);
}

#[test]
fn colliding_names_are_refused() {
    let mut reg = Registry::new("sh".to_string(), Mode::Namespaced);
    assert_eq!(reg.register(function("open")), Ok(true));
    assert_eq!(reg.register(function("open")), Err(ConfigError::Collision));
    assert_eq!(reg.len(), 1);
    let a = Descriptor { group: Some("a".to_string()), global: true, ..function("f") };
    let b = Descriptor { group: Some("b".to_string()), global: true, ..function("f") };
    let c = Descriptor { group: Some("b".to_string()), ..function("f") };
    assert_eq!(reg.register(a), Ok(true));
    assert_eq!(reg.register(b), Err(ConfigError::Collision));
    assert_eq!(reg.register(c), Ok(true));
    assert_eq!(reg.len(), 3);
    assert_eq!(find(&reg, Scope::Bare, "f"), Some(1));
    assert_eq!(find(&reg, group("sh", "b"), "f"), Some(2));
}

#[test]
fn operator_binds_between_additive_and_multiplicative() {
    let mut reg = Registry::new("sh".to_string(), Mode::Namespaced);
    assert_eq!(reg.register(operator("@", 160)), Ok(true));
    let mut engine = rhai::Engine::new();
    assert_eq!(reg.install_operators(&mut engine), Ok(()));
    engine.register_fn("@", |x: i64, y: i64| x * x + y * y);
    assert_eq!(engine.eval::<i64>("2 @ 3 + 1").unwrap(), 14);
    assert_eq!(engine.eval::<i64>("1 + 2 @ 3").unwrap(), 14);
    assert_eq!(engine.eval::<i64>("2 @ 3 * 2").unwrap(), 40);
}

#[test]
fn operator_without_installation_does_not_parse() {
    let reg = Registry::new("sh".to_string(), Mode::Namespaced);
    let mut engine = rhai::Engine::new();
    assert_eq!(reg.install_operators(&mut engine), Ok(()));
    engine.register_fn("@", |x: i64, y: i64| x * x + y * y);
    assert!(engine.eval::<i64>("2 @ 3 + 1").is_err());
}

#[test]
fn built_in_operator_token_is_refused() {
    let mut reg = Registry::new("sh".to_string(), Mode::Namespaced);
    assert_eq!(reg.register(operator("+", 160)), Ok(true));
    let mut engine = rhai::Engine::new();
    assert_eq!(reg.install_operators(&mut engine), Err(ConfigError::ReservedOperator));
}

#[test]
fn operator_of_precedence_zero_is_refused() {
    let mut reg = Registry::new("sh".to_string(), Mode::MergeGlobal);
    assert_eq!(reg.register(function("f")), Ok(true));
    assert_eq!(reg.register(operator("@", 0)), Ok(true));
    let mut engine = rhai::Engine::new();
    assert_eq!(reg.install_operators(&mut engine), Err(ConfigError::ReservedOperator));
}

fn getter(target: &str, name: &str) -> Descriptor {
    Descriptor { kind: Kind::PropertyGetter, target: Some(target.to_string()), ..function(name) }
}

fn read(reg: &Registry, target: &str, name: &str) -> Option<usize> {
    reg.resolve_property(&target.to_string(), &name.to_string())
}

#[test]
fn property_is_read_through_its_getter_only() {
    let mut reg = Registry::new("sh".to_string(), Mode::Namespaced);
    assert_eq!(reg.register(function("value")), Ok(true));
    assert_eq!(read(&reg, "ABC", "value"), None);
    assert_eq!(reg.register(getter("ABC", "value")), Ok(true));
    assert_eq!(read(&reg, "ABC", "value"), Some(1));
    assert_eq!(read(&reg, "ABC", "other"), None);
    assert_eq!(read(&reg, "XYZ", "value"), None);
    assert_eq!(find(&reg, module("sh"), "value"), Some(0));
    assert_eq!(find(&reg, Scope::Bare, "value"), None);
}

#[test]
fn getters_collide_on_record_type_and_name() {
    let mut reg = Registry::new("sh".to_string(), Mode::MergeGlobal);
    assert_eq!(reg.register(getter("ABC", "value")), Ok(true));
    assert_eq!(reg.register(getter("ABC", "value")), Err(ConfigError::Collision));
    assert_eq!(reg.register(getter("XYZ", "value")), Ok(true));
    assert_eq!(reg.register(getter("ABC", "size")), Ok(true));
    assert_eq!(reg.register(function("value")), Ok(true));
    assert_eq!(reg.len(), 4);
    assert_eq!(read(&reg, "XYZ", "value"), Some(1));
    assert_eq!(find(&reg, Scope::Bare, "value"), Some(3));
    assert_eq!(find(&reg, Scope::Bare, "size"), None);
}

#[test]
fn disabled_getter_is_absent() {
    let mut reg = Registry::new("sh".to_string(), Mode::MergeGlobal);
    assert_eq!(reg.register(Descriptor { enabled: false, ..getter("ABC", "value") }), Ok(false));
    assert_eq!(read(&reg, "ABC", "value"), None);
    assert_eq!(reg.qualifier(), "sh");
}

#[test]
fn keyword_token_is_refused() {
    let mut reg = Registry::new("sh".to_string(), Mode::Namespaced);
    assert_eq!(reg.register(operator("while", 160)), Ok(true));
    let mut engine = rhai::Engine::new();
    assert_eq!(reg.install_operators(&mut engine), Err(ConfigError::ReservedOperator));
}

#[test]
fn disabled_built_in_token_may_be_taken() {
    let mut reg = Registry::new("sh".to_string(), Mode::Namespaced);
    assert_eq!(reg.register(operator("+", 160)), Ok(true));
    let mut engine = rhai::Engine::new();
    engine.disable_symbol("+");
    assert_eq!(reg.install_operators(&mut engine), Ok(()));
}

#[test]
fn identifier_token_is_accepted() {
    let mut reg = Registry::new("sh".to_string(), Mode::MergeGlobal);
    assert_eq!(reg.register(operator("squared_sum", 160)), Ok(true));
    let mut engine = rhai::Engine::new();
    assert_eq!(reg.install_operators(&mut engine), Ok(()));
    engine.register_fn("squared_sum", |x: i64, y: i64| x * x + y * y);
    assert_eq!(engine.eval::<i64>("2 squared_sum 3 + 1").unwrap(), 14);
}

#[test]
fn operators_before_the_refused_one_are_installed() {
    let mut reg = Registry::new("sh".to_string(), Mode::Namespaced);
    assert_eq!(reg.register(operator("@", 160)), Ok(true));
    assert_eq!(reg.register(operator("*", 160)), Ok(true));
    assert_eq!(reg.register(operator("#", 160)), Ok(true));
    let mut engine = rhai::Engine::new();
    assert_eq!(reg.install_operators(&mut engine), Err(ConfigError::ReservedOperator));
    engine.register_fn("@", |x: i64, y: i64| x * x + y * y);
    engine.register_fn("#", |x: i64, y: i64| x * x + y * y);
    assert_eq!(engine.eval::<i64>("2 @ 3 + 1").unwrap(), 14);
    assert!(engine.eval::<i64>("2 # 3 + 1").is_err());
}
