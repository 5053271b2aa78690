use oak_runtime::abi::OakStatus;
use oak_runtime::config::{
    application_configuration, configure_and_run, finish_run, from_protobuf,
    ApplicationConfiguration, ConfigType, Configuration, GrpcServerConfiguration, LaunchStep,
    LoadStep, LogConfiguration, NodeConfiguration, NodeKind, RuntimeConfiguration,
    WebAssemblyConfiguration,
};
use std::collections::HashMap;

fn node(name: &str, config_type: Option<ConfigType>) -> NodeConfiguration {
    NodeConfiguration { name: name.to_string(), config_type }
}

fn log() -> Option<ConfigType> {
    Some(ConfigType::LogConfig(LogConfiguration {}))
}

fn grpc(address: &str) -> Option<ConfigType> {
    Some(ConfigType::GrpcServerConfig(GrpcServerConfiguration { address: address.to_string() }))
}

fn wasm(bytes: &[u8]) -> Option<ConfigType> {
    Some(ConfigType::WasmConfig(WebAssemblyConfiguration { module_bytes: bytes.to_vec() }))
}

fn other() -> Option<ConfigType> {
    Some(ConfigType::Other("storage".to_string()))
}

fn app(node_configs: Vec<NodeConfiguration>) -> ApplicationConfiguration {
    ApplicationConfiguration {
        node_configs,
        initial_node_config_name: "app".to_string(),
        initial_entrypoint_name: "main".to_string(),
    }
}

/// Loads a configuration: addresses that start with a bracket and empty modules are refused.
fn load(app: ApplicationConfiguration) -> Result<Configuration, OakStatus> {
    let mut step = from_protobuf(app);
    loop {
        step = match step {
            LoadStep::Loaded(config) => return Ok(config),
            LoadStep::Refused(status) => return Err(status),
            LoadStep::CheckAddress { address, loading } => {
                loading.address_checked(if address.starts_with('[') { None } else { Some(address) })
            }
            LoadStep::LoadWasm { module_bytes, loading } => loading.module_loaded(
                if module_bytes.is_empty() { None } else { Some(module_bytes[0] as u64) },
            ),
        };
    }
}

#[test]
fn modules_are_sorted_by_name() {
    let names = ["zeta", "alpha", "Beta", "alph", "\u{e9}t\u{e9}", "m1", "m10", "m2"];
    let mut modules = HashMap::new();
    for (i, name) in names.iter().enumerate() {
        modules.insert(name.to_string(), vec![i as u8]);
    }
    let config = application_configuration(modules, "log", "alpha", "oak_main");
    let got: Vec<&str> = config.node_configs.iter().map(|n| n.name.as_str()).collect();
    assert_eq!(
        got,
        vec!["Beta", "alph", "alpha", "m1", "m10", "m2", "zeta", "\u{e9}t\u{e9}", "log"]
    );
    match &config.node_configs[2].config_type {
        Some(ConfigType::WasmConfig(c)) => assert_eq!(c.module_bytes, vec![1]),
        _ => panic!("alpha is a module"),
    }
    assert!(matches!(config.node_configs[8].config_type, Some(ConfigType::LogConfig(_))));
    assert_eq!(config.initial_node_config_name, "alpha");
    assert_eq!(config.initial_entrypoint_name, "oak_main");
}

#[test]
fn order_of_nodes_does_not_depend_on_the_map() {
    let mut forth = HashMap::new();
    let mut back = HashMap::with_capacity(1000);
    for i in 0..20u8 {
        forth.insert(format!("m{}", i), vec![i]);
    }
    for i in (0..20u8).rev() {
        back.insert(format!("m{}", i), vec![i]);
    }
    let a = application_configuration(forth, "log", "m0", "main");
    let b = application_configuration(back, "log", "m0", "main");
    assert_eq!(a.node_configs.len(), 21);
    for (x, y) in a.node_configs.iter().zip(b.node_configs.iter()) {
        assert_eq!(x.name, y.name);
        match (&x.config_type, &y.config_type) {
            (Some(ConfigType::WasmConfig(p)), Some(ConfigType::WasmConfig(q))) => {
                assert_eq!(p.module_bytes, q.module_bytes)
            }
            (Some(ConfigType::LogConfig(_)), Some(ConfigType::LogConfig(_))) => {}
            _ => panic!("the types differ"),
        }
    }
}

#[test]
fn empty_logger_name_means_no_logger() {
    let config = application_configuration(HashMap::new(), "", "app", "main");
    assert!(config.node_configs.is_empty());
    let config = application_configuration(HashMap::new(), "log", "app", "main");
    assert_eq!(config.node_configs.len(), 1);
}

#[test]
fn logger_counts_against_a_module_of_its_name() {
    let mut modules = HashMap::new();
    modules.insert("log".to_string(), vec![1]);
    let config = load(application_configuration(modules, "log", "app", "main")).unwrap();
    assert_eq!(config.nodes.len(), 1);
    assert!(matches!(config.nodes.get("log"), Some(NodeKind::LogNode)));
}

#[test]
fn every_kind_of_node_is_loaded() {
    let config = load(app(vec![
        node("l", log()),
        node("g", grpc("0.0.0.0:8080")),
        node("w", wasm(&[42, 1])),
        node("x", other()),
    ]))
    .unwrap();
    assert_eq!(config.entry_module, "app");
    assert_eq!(config.entrypoint, "main");
    assert_eq!(config.nodes.len(), 4);
    assert!(matches!(config.nodes.get("l"), Some(NodeKind::LogNode)));
    match config.nodes.get("g") {
        Some(NodeKind::GrpcServerNode { address }) => assert_eq!(address, "0.0.0.0:8080"),
        _ => panic!("g serves gRPC"),
    }
    assert!(matches!(config.nodes.get("w"), Some(NodeKind::WasmNode { module: 42 })));
    assert!(matches!(config.nodes.get("x"), Some(NodeKind::External)));
}

#[test]
fn bad_nodes_are_refused() {
    for bad in [None, grpc("[bad"), wasm(&[])] {
        let result = load(app(vec![node("l", log()), node("b", bad), node("x", other())]));
        assert_eq!(result.err(), Some(OakStatus::ErrInvalidArgs));
    }
}

#[test]
fn nothing_is_checked_after_a_refusal() {
    match from_protobuf(app(vec![node("b", None), node("w", wasm(&[1]))])) {
        LoadStep::Refused(status) => assert_eq!(status, OakStatus::ErrInvalidArgs),
        _ => panic!("must be refused at once"),
    }
}

#[test]
fn last_node_of_a_name_counts() {
    let config = load(app(vec![node("n", wasm(&[5])), node("n", other())])).unwrap();
    assert_eq!(config.nodes.len(), 1);
    assert!(matches!(config.nodes.get("n"), Some(NodeKind::External)));
}

#[test]
fn equal_modules_may_get_different_keys() {
    let mut keys = vec![70, 71].into_iter();
    let mut step = from_protobuf(app(vec![node("a", wasm(&[1])), node("b", wasm(&[1]))]));
    let config = loop {
        step = match step {
            LoadStep::LoadWasm { loading, .. } => loading.module_loaded(keys.next()),
            LoadStep::Loaded(config) => break config,
            _ => panic!("only modules are to be loaded"),
        };
    };
    assert!(matches!(config.nodes.get("a"), Some(NodeKind::WasmNode { module: 70 })));
    assert!(matches!(config.nodes.get("b"), Some(NodeKind::WasmNode { module: 71 })));
}

#[test]
fn launch_asks_for_checks_and_runs() {
    let ports = RuntimeConfiguration { metrics_port: None, introspect_port: Some(7) };
    let step = configure_and_run(app(vec![node("g", grpc("a:1")), node("w", wasm(&[3]))]), ports);
    let step = match step {
        LaunchStep::CheckAddress { address, launch } => {
            assert_eq!(address, "a:1");
            launch.address_checked(Some("b:2".to_string()))
        }
        _ => panic!("the address is to be checked"),
    };
    let step = match step {
        LaunchStep::LoadWasm { module_bytes, launch } => {
            assert_eq!(module_bytes, vec![3]);
            launch.module_loaded(Some(11))
        }
        _ => panic!("the module is to be loaded"),
    };
    match step {
        LaunchStep::Run { configuration, runtime_config } => {
            assert_eq!(runtime_config, ports);
            assert_eq!(configuration.nodes.len(), 2);
        }
        _ => panic!("the runtime is to be run"),
    }
    assert_eq!(finish_run(2, Ok(9)), Ok((2, 9)));
    assert_eq!(finish_run(2, Err(OakStatus::ErrInternal)), Err(OakStatus::ErrInternal));
}

#[test]
fn launch_is_refused_with_its_configuration() {
    let ports = RuntimeConfiguration { metrics_port: None, introspect_port: None };
    match configure_and_run(app(vec![node("g", grpc("a:1"))]), ports) {
        LaunchStep::CheckAddress { launch, .. } => match launch.address_checked(None) {
            LaunchStep::Refused(status) => assert_eq!(status, OakStatus::ErrInvalidArgs),
            _ => panic!("must be refused"),
        },
        _ => panic!("the address is to be checked"),
    }
}
