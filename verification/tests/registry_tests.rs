use mcpd::registry::{Registry, Tool};
use mcpd::codec::{encode_json, decode_json};
use mcpd::registry::{registry_to_json, registry_from_json};

fn sample_tool(name: &str) -> Tool {
    Tool {
        name: name.to_string(),
        command: vec!["/usr/bin/echo".to_string(), "hello".to_string()],
        env: Vec::new(),
    }
}

/// Writes a registry out as its file text and reads it back, the way
/// saving and reloading the file would.
fn round_trip(reg: &Registry) -> Registry {
    let line = encode_json(&registry_to_json(reg));
    let parsed = decode_json(&line).unwrap();
    registry_from_json(&parsed).unwrap()
}

#[test]
fn empty_registry() {
    let reg = Registry::new();
    assert!(reg.is_empty());
    assert_eq!(reg.len(), 0);
}

#[test]
fn register_and_list() {
    let mut reg = Registry::new();
    reg.register(sample_tool("test"));
    assert_eq!(reg.len(), 1);
    assert!(!reg.is_empty());
    let tools = reg.list();
    assert_eq!(tools[0].name, "test");
}

#[test]
fn register_persists_to_disk() {
    let mut reg = Registry::new();
    reg.register(sample_tool("persist"));

    let reg2 = round_trip(&reg);
    assert_eq!(reg2.len(), 1);
    let tools = reg2.list();
    assert_eq!(tools[0].name, "persist");
}

#[test]
fn unregister_existing() {
    let mut reg = Registry::new();
    reg.register(sample_tool("test"));
    assert!(reg.unregister("test"));
    assert!(reg.is_empty());
}

#[test]
fn unregister_nonexistent() {
    let mut reg = Registry::new();
    assert!(!reg.unregister("nonexistent"));
}

#[test]
fn reload_picks_up_external_changes() {
    let mut reg = Registry::new();
    reg.register(sample_tool("original"));

    let mut other = Registry::new();
    other.register(sample_tool("external"));
    let content = encode_json(&registry_to_json(&other));

    let reg = registry_from_json(&decode_json(&content).unwrap()).unwrap();
    assert_eq!(reg.len(), 1);
    let names = reg.names();
    assert!(names.contains(&"external".to_string()));
    assert!(!names.contains(&"original".to_string()));
}

#[test]
fn names_returns_correct_set() {
    let mut reg = Registry::new();
    reg.register(sample_tool("a"));
    reg.register(sample_tool("b"));
    let names = reg.names();
    assert_eq!(names.len(), 2);
    assert!(names.contains(&"a".to_string()));
    assert!(names.contains(&"b".to_string()));
}

#[test]
fn register_overwrites_existing() {
    let mut reg = Registry::new();
    reg.register(sample_tool("test"));
    let mut tool = sample_tool("test");
    tool.command = vec!["/usr/bin/true".to_string()];
    reg.register(tool);
    assert_eq!(reg.len(), 1);
    let tools = reg.list();
    assert_eq!(tools[0].command, vec!["/usr/bin/true".to_string()]);
}

#[test]
fn tool_with_env_vars_persists() {
    let mut reg = Registry::new();
    let mut tool = sample_tool("envtest");
    tool.env.push(("API_KEY".to_string(), "secret".to_string()));
    reg.register(tool);

    let reg = round_trip(&reg);
    let tools = reg.list();
    let env = &tools[0].env;
    let value = env.iter().find(|e| e.0 == "API_KEY").map(|e| e.1.clone());
    assert_eq!(value.unwrap(), "secret");
}

#[test]
fn duplicate_names_in_file_are_refused() {
    // two members with the same inner name cannot become a registry
    let line = r#"{"tools":{"a":{"name":"x","command":["c"]},"b":{"name":"x","command":["c"]}}}"#;
    let parsed = decode_json(line).unwrap();
    assert!(registry_from_json(&parsed).is_none());
}

#[test]
fn missing_tools_member_means_empty() {
    let parsed = decode_json("{}").unwrap();
    let reg = registry_from_json(&parsed).unwrap();
    assert!(reg.is_empty());
}
