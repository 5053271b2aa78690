//! The configuration of an application, and how a runtime is set up from it.
use crate::abi::{Handle, OakStatus};
use crate::proxy::RuntimeRef;
use crate::sorted;
use std::collections::{HashMap, VecDeque};
use std::hash::BuildHasher;
use vstd::hash_map::StringHashMap;
use vstd::prelude::*;

verus! {

/// The configuration of a Node that runs a WebAssembly module.
pub struct WebAssemblyConfiguration {
    pub module_bytes: Vec<u8>,
}

/// The configuration of a Node that logs.
pub struct LogConfiguration {}

/// The configuration of a Node that serves gRPC.
pub struct GrpcServerConfiguration {
    pub address: String,
}

/// What a Node is to run.
pub enum ConfigType {
    WasmConfig(WebAssemblyConfiguration),
    LogConfig(LogConfiguration),
    GrpcServerConfig(GrpcServerConfiguration),
    /// A pseudo-Node of the described type, which is implemented elsewhere.
    Other(String),
}

/// The configuration of a Node.
pub struct NodeConfiguration {
    pub name: String,
    pub config_type: Option<ConfigType>,
}

/// The configuration of an application.
pub struct ApplicationConfiguration {
    pub node_configs: Vec<NodeConfiguration>,
    pub initial_node_config_name: String,
    pub initial_entrypoint_name: String,
}

/// What a Node is to run.
pub enum ConfigTypeModel {
    Wasm(Seq<u8>),
    Log,
    GrpcServer(Seq<char>),
    Other(Seq<char>),
}

/// The configuration of a Node.
pub struct NodeConfigModel {
    pub name: Seq<char>,
    pub config_type: Option<ConfigTypeModel>,
}

/// The configuration of an application.
pub struct AppConfigModel {
    pub nodes: Seq<NodeConfigModel>,
    pub initial_node: Seq<char>,
    pub entrypoint: Seq<char>,
}

impl View for ConfigType {
    type V = ConfigTypeModel;

    open spec fn view(&self) -> ConfigTypeModel {
        match self {
            ConfigType::WasmConfig(c) => ConfigTypeModel::Wasm(c.module_bytes@),
            ConfigType::LogConfig(_) => ConfigTypeModel::Log,
            ConfigType::GrpcServerConfig(c) => ConfigTypeModel::GrpcServer(c.address@),
            ConfigType::Other(description) => ConfigTypeModel::Other(description@),
        }
    }
}

impl View for NodeConfiguration {
    type V = NodeConfigModel;

    open spec fn view(&self) -> NodeConfigModel {
        NodeConfigModel {
            name: self.name@,
            config_type: match self.config_type {
                None => None,
                Some(t) => Some(t@),
            },
        }
    }
}

/// The models of a sequence of Node configurations.
pub open spec fn node_views(s: Seq<NodeConfiguration>) -> Seq<NodeConfigModel> {
    s.map_values(|n: NodeConfiguration| n@)
}

impl View for ApplicationConfiguration {
    type V = AppConfigModel;

    open spec fn view(&self) -> AppConfigModel {
        AppConfigModel {
            nodes: node_views(self.node_configs@),
            initial_node: self.initial_node_config_name@,
            entrypoint: self.initial_entrypoint_name@,
        }
    }
}

/// The Nodes that run the given modules.
pub open spec fn module_nodes(modules: Seq<(Seq<char>, Seq<u8>)>) -> Seq<NodeConfigModel> {
    modules.map_values(
        |m: (Seq<char>, Seq<u8>)|
            NodeConfigModel { name: m.0, config_type: Some(ConfigTypeModel::Wasm(m.1)) },
    )
}

/// The logging Node, if it has a name.
pub open spec fn logger_nodes(logger_name: Seq<char>) -> Seq<NodeConfigModel> {
    if logger_name.len() == 0 {
        Seq::empty()
    } else {
        seq![NodeConfigModel { name: logger_name, config_type: Some(ConfigTypeModel::Log) }]
    }
}

/// Whether `r` is the configuration of an application with the given modules and names: the
/// Nodes that run modules come first, by name in ascending order, and the logger last.
pub open spec fn configures(
    r: AppConfigModel,
    modules: Map<String, Vec<u8>>,
    logger_name: Seq<char>,
    initial_node: Seq<char>,
    entrypoint: Seq<char>,
) -> bool {
    &&& r.initial_node == initial_node
    &&& r.entrypoint == entrypoint
    &&& exists|listing: Seq<(Seq<char>, Seq<u8>)>|
        r.nodes == #[trigger] module_nodes(listing) + logger_nodes(logger_name)
            && sorted::is_module_listing(listing, modules)
}

/// Creates an application configuration.
///
/// - module_name_wasm: collection of Wasm bytes indexed by config name.
/// - logger_name: Node name to use for a logger configuration; if empty no logger is set up.
/// - initial_node: Initial Node to run on launch.
/// - entrypoint: Entrypoint in the initial Node to run on launch.
///
/// The Nodes that run modules come first, by name in ascending order, and the logger last.
pub fn application_configuration<S: BuildHasher>(
    module_name_wasm: HashMap<String, Vec<u8>, S>,
    logger_name: &str,
    initial_node: &str,
    entrypoint: &str,
) -> (r: ApplicationConfiguration)
    ensures
        r@.initial_node == initial_node@,
        r@.entrypoint == entrypoint@,
        exists|modules: Seq<(Seq<char>, Seq<u8>)>|
            r@.nodes == #[trigger] module_nodes(modules) + logger_nodes(logger_name@),
        vstd::std_specs::hash::builds_valid_hashers::<S>() ==> configures(
            r@,
            module_name_wasm@,
            logger_name@,
            initial_node@,
            entrypoint@,
        ),
{
    let modules = sorted::sorted_modules(module_name_wasm);
    let ghost all = sorted::module_views(modules@);
    let mut nodes: Vec<NodeConfiguration> = Vec::new();
    for module in iter: modules.into_iter()
        invariant
            sorted::module_views(iter.seq()) == all,
            node_views(nodes@) == module_nodes(all).take(iter.index()),
    {
        let (name, wasm) = module;
        let ghost before = nodes@;
        nodes.push(
            NodeConfiguration {
                name,
                config_type: Some(
                    ConfigType::WasmConfig(WebAssemblyConfiguration { module_bytes: wasm }),
                ),
            },
        );
        proof {
            assert(all[iter.index()] == (name@, wasm@));
            assert(node_views(nodes@) =~= node_views(before).push(module_nodes(all)[iter.index()]));
            assert(node_views(nodes@) =~= module_nodes(all).take(iter.index() + 1));
        }
    }
    assert(node_views(nodes@) =~= module_nodes(all));
    if !logger_name.is_empty() {
        nodes.push(
            NodeConfiguration {
                name: logger_name.to_string(),
                config_type: Some(ConfigType::LogConfig(LogConfiguration {  })),
            },
        );
    }
    assert(node_views(nodes@) =~= module_nodes(all) + logger_nodes(logger_name@));
    ApplicationConfiguration {
        node_configs: nodes,
        initial_node_config_name: initial_node.to_string(),
        initial_entrypoint_name: entrypoint.to_string(),
    }
}

/// A Node as the runtime is to run it.
pub enum NodeKind {
    /// A Node that logs.
    LogNode,
    /// A Node that serves gRPC at the given address.
    GrpcServerNode {
        address: String,
    },
    /// A Node that runs the WebAssembly module that is kept under the given key.
    WasmNode {
        module: u64,
    },
    /// A pseudo-Node that is implemented elsewhere.
    External,
}

/// A Node as the runtime is to run it.
pub enum NodeKindModel {
    LogNode,
    GrpcServerNode(Seq<char>),
    WasmNode(u64),
    External,
}

impl View for NodeKind {
    type V = NodeKindModel;

    open spec fn view(&self) -> NodeKindModel {
        match self {
            NodeKind::LogNode => NodeKindModel::LogNode,
            NodeKind::GrpcServerNode { address } => NodeKindModel::GrpcServerNode(address@),
            NodeKind::WasmNode { module } => NodeKindModel::WasmNode(*module),
            NodeKind::External => NodeKindModel::External,
        }
    }
}

/// The configuration of a runtime: its Nodes by name, and where it starts.
pub struct Configuration {
    pub nodes: StringHashMap<NodeKind>,
    pub entry_module: String,
    pub entrypoint: String,
}

/// The configuration of a runtime: its Nodes by name, and where it starts.
pub struct ConfigurationModel {
    pub nodes: Map<Seq<char>, NodeKindModel>,
    pub entry_module: Seq<char>,
    pub entrypoint: Seq<char>,
}

impl View for Configuration {
    type V = ConfigurationModel;

    open spec fn view(&self) -> ConfigurationModel {
        ConfigurationModel {
            nodes: self.nodes@.map_values(|k: NodeKind| k@),
            entry_module: self.entry_module@,
            entrypoint: self.entrypoint@,
        }
    }
}

impl ConfigurationModel {
    /// The configuration with one more Node; a Node of the same name is replaced.
    pub open spec fn with_node(self, name: Seq<char>, kind: NodeKindModel) -> Self {
        ConfigurationModel { nodes: self.nodes.insert(name, kind), ..self }
    }

    /// The configuration without Nodes that starts where the application wants to start.
    pub open spec fn start(app: AppConfigModel) -> Self {
        ConfigurationModel {
            nodes: Map::empty(),
            entry_module: app.initial_node,
            entrypoint: app.entrypoint,
        }
    }
}

/// How far the loading of a configuration has come, where it waits for the Node `name` to
/// be checked.
pub struct LoadingModel {
    pub name: Seq<char>,
    pub rest: Seq<NodeConfigModel>,
    pub config: ConfigurationModel,
}

/// What the loading of a configuration needs next, or what it has come to.
pub enum LoadStepModel {
    Loaded(ConfigurationModel),
    Refused(OakStatus),
    CheckAddress(Seq<char>, LoadingModel),
    LoadWasm(Seq<u8>, LoadingModel),
}

/// Loads the given Nodes into `config`, in order, up to the first one that has no type or
/// that is to be checked.
pub open spec fn advance(
    config: ConfigurationModel,
    nodes: Seq<NodeConfigModel>,
) -> LoadStepModel
    decreases nodes.len(),
{
    if nodes.len() == 0 {
        LoadStepModel::Loaded(config)
    } else {
        let name = nodes[0].name;
        let rest = nodes.drop_first();
        match nodes[0].config_type {
            None => LoadStepModel::Refused(OakStatus::ErrInvalidArgs),
            Some(ConfigTypeModel::Log) => advance(
                config.with_node(name, NodeKindModel::LogNode),
                rest,
            ),
            Some(ConfigTypeModel::GrpcServer(address)) => LoadStepModel::CheckAddress(
                address,
                LoadingModel { name, rest, config },
            ),
            Some(ConfigTypeModel::Wasm(bytes)) => LoadStepModel::LoadWasm(
                bytes,
                LoadingModel { name, rest, config },
            ),
            Some(ConfigTypeModel::Other(_)) => advance(
                config.with_node(name, NodeKindModel::External),
                rest,
            ),
        }
    }
}

impl LoadingModel {
    /// Goes on with the address that was checked: where it was refused, so is the
    /// configuration.
    pub open spec fn address_checked(self, address: Option<Seq<char>>) -> LoadStepModel {
        match address {
            Some(a) => advance(
                self.config.with_node(self.name, NodeKindModel::GrpcServerNode(a)),
                self.rest,
            ),
            None => LoadStepModel::Refused(OakStatus::ErrInvalidArgs),
        }
    }

    /// Goes on with the module that was loaded: where it was refused, so is the
    /// configuration.
    pub open spec fn module_loaded(self, module: Option<u64>) -> LoadStepModel {
        match module {
            Some(m) => advance(
                self.config.with_node(self.name, NodeKindModel::WasmNode(m)),
                self.rest,
            ),
            None => LoadStepModel::Refused(OakStatus::ErrInvalidArgs),
        }
    }
}

/// How far the loading of a configuration has come, where it waits for a Node to be
/// checked.
pub struct Loading {
    name: String,
    rest: VecDeque<NodeConfiguration>,
    config: Configuration,
}

impl View for Loading {
    type V = LoadingModel;

    closed spec fn view(&self) -> LoadingModel {
        LoadingModel {
            name: self.name@,
            rest: node_views(self.rest@),
            config: self.config@,
        }
    }
}

/// What the loading of a configuration needs next, or what it has come to.
pub enum LoadStep {
    /// The configuration.
    Loaded(Configuration),
    /// The configuration is refused.
    Refused(OakStatus),
    /// The address is to be parsed and its port to be checked.
    CheckAddress {
        address: String,
        loading: Loading,
    },
    /// The module is to be loaded.
    LoadWasm {
        module_bytes: Vec<u8>,
        loading: Loading,
    },
}

impl View for LoadStep {
    type V = LoadStepModel;

    open spec fn view(&self) -> LoadStepModel {
        match self {
            LoadStep::Loaded(config) => LoadStepModel::Loaded(config@),
            LoadStep::Refused(status) => LoadStepModel::Refused(*status),
            LoadStep::CheckAddress { address, loading } => LoadStepModel::CheckAddress(
                address@,
                loading@,
            ),
            LoadStep::LoadWasm { module_bytes, loading } => LoadStepModel::LoadWasm(
                module_bytes@,
                loading@,
            ),
        }
    }
}

/// Adds a Node to a configuration; a Node of the same name is replaced.
fn add_node(config: &mut Configuration, name: String, kind: NodeKind)
    ensures
        final(config)@ == old(config)@.with_node(name@, kind@),
{
    let ghost before = config.nodes@;
    config.nodes.insert(name, kind);
    assert(config@.nodes =~= before.map_values(|k: NodeKind| k@).insert(name@, kind@));
}

/// Loads Nodes up to the first one that has no type or that is to be checked.
fn advance_loading(config: Configuration, nodes: VecDeque<NodeConfiguration>) -> (r: LoadStep)
    ensures
        r@ == advance(config@, node_views(nodes@)),
{
    let mut loaded = config;
    let mut rest = nodes;
    while rest.len() > 0
        invariant
            advance(loaded@, node_views(rest@)) == advance(config@, node_views(nodes@)),
        decreases rest.len(),
    {
        let ghost before = rest@;
        let node = rest.pop_front().unwrap();
        proof {
            assert(node_views(before)[0] == node@);
            assert(node_views(rest@) =~= node_views(before).drop_first());
        }
        match node.config_type {
            None => {
                return LoadStep::Refused(OakStatus::ErrInvalidArgs);
            },
            Some(ConfigType::LogConfig(_)) => {
                add_node(&mut loaded, node.name, NodeKind::LogNode);
            },
            Some(ConfigType::GrpcServerConfig(grpc)) => {
                let loading = Loading { name: node.name, rest, config: loaded };
                return LoadStep::CheckAddress { address: grpc.address, loading };
            },
            Some(ConfigType::WasmConfig(wasm)) => {
                let loading = Loading { name: node.name, rest, config: loaded };
                return LoadStep::LoadWasm { module_bytes: wasm.module_bytes, loading };
            },
            Some(ConfigType::Other(_)) => {
                add_node(&mut loaded, node.name, NodeKind::External);
            },
        }
    }
    LoadStep::Loaded(loaded)
}

/// Loads a [`Configuration`] from an [`ApplicationConfiguration`].
///
/// The Nodes are taken in order. A Node without a type is refused. Where the address of a
/// gRPC server or a WebAssembly module is to be checked, the step that is returned says so,
/// and the loading goes on with [`Loading::address_checked`] or [`Loading::module_loaded`].
pub fn from_protobuf(app_config: ApplicationConfiguration) -> (r: LoadStep)
    ensures
        r@ == advance(ConfigurationModel::start(app_config@), app_config@.nodes),
{
    let config = Configuration {
        nodes: StringHashMap::new(),
        entry_module: app_config.initial_node_config_name,
        entrypoint: app_config.initial_entrypoint_name,
    };
    assert(config@.nodes =~= Map::<Seq<char>, NodeKindModel>::empty());
    let mut nodes: VecDeque<NodeConfiguration> = VecDeque::new();
    let ghost all = app_config.node_configs@;
    for node in iter: app_config.node_configs.into_iter()
        invariant
            iter.seq() == all,
            nodes@ == all.take(iter.index()),
    {
        nodes.push_back(node);
        assert(nodes@ =~= all.take(iter.index() + 1));
    }
    assert(nodes@ =~= all);
    advance_loading(config, nodes)
}

impl Loading {
    /// Goes on after the address of a gRPC server has been checked. `address` is the
    /// address in use, or nothing where it could not be parsed or its port is not allowed.
    pub fn address_checked(self, address: Option<String>) -> (r: LoadStep)
        ensures
            r@ == self@.address_checked(
                match address {
                    Some(a) => Some(a@),
                    None => None,
                },
            ),
    {
        match address {
            Some(address) => {
                let mut config = self.config;
                add_node(&mut config, self.name, NodeKind::GrpcServerNode { address });
                advance_loading(config, self.rest)
            },
            None => LoadStep::Refused(OakStatus::ErrInvalidArgs),
        }
    }

    /// Goes on after a WebAssembly module has been loaded. `module` is the key under which
    /// it is kept, or nothing where it could not be loaded.
    pub fn module_loaded(self, module: Option<u64>) -> (r: LoadStep)
        ensures
            r@ == self@.module_loaded(module),
    {
        match module {
            Some(module) => {
                let mut config = self.config;
                add_node(&mut config, self.name, NodeKind::WasmNode { module });
                advance_loading(config, self.rest)
            },
            None => LoadStep::Refused(OakStatus::ErrInvalidArgs),
        }
    }
}

/// How the runtime itself is set up: the ports of its own services, where they run.
#[derive(PartialEq, Eq, Clone, Copy, Debug, Structural)]
pub struct RuntimeConfiguration {
    pub metrics_port: Option<u16>,
    pub introspect_port: Option<u16>,
}

/// How far the start of a runtime has come, where it waits for a Node to be checked.
pub struct Launch {
    pub loading: Loading,
    pub runtime_config: RuntimeConfiguration,
}

/// What the start of a runtime needs next, or what it has come to.
pub enum LaunchStep {
    /// A runtime is to be created from the configuration, and to be run.
    Run {
        configuration: Configuration,
        runtime_config: RuntimeConfiguration,
    },
    /// The configuration is refused.
    Refused(OakStatus),
    /// The address is to be parsed and its port to be checked.
    CheckAddress {
        address: String,
        launch: Launch,
    },
    /// The module is to be loaded.
    LoadWasm {
        module_bytes: Vec<u8>,
        launch: Launch,
    },
}

/// Whether the start of a runtime has come to `step`, given how far the loading of its
/// configuration has come.
pub open spec fn launches(
    step: LaunchStep,
    load: LoadStepModel,
    runtime_config: RuntimeConfiguration,
) -> bool {
    match load {
        LoadStepModel::Loaded(config) => step matches LaunchStep::Run {
            configuration,
            runtime_config: given,
        } && configuration@ == config && given == runtime_config,
        LoadStepModel::Refused(status) => step == LaunchStep::Refused(status),
        LoadStepModel::CheckAddress(text, loading) => step matches LaunchStep::CheckAddress {
            address,
            launch,
        } && address@ == text && launch.loading@ == loading && launch.runtime_config
            == runtime_config,
        LoadStepModel::LoadWasm(bytes, loading) => step matches LaunchStep::LoadWasm {
            module_bytes,
            launch,
        } && module_bytes@ == bytes && launch.loading@ == loading && launch.runtime_config
            == runtime_config,
    }
}

/// Turns a step of the loading into a step of the start.
fn launch_step(step: LoadStep, runtime_config: RuntimeConfiguration) -> (r: LaunchStep)
    ensures
        launches(r, step@, runtime_config),
{
    match step {
        LoadStep::Loaded(configuration) => LaunchStep::Run { configuration, runtime_config },
        LoadStep::Refused(status) => LaunchStep::Refused(status),
        LoadStep::CheckAddress { address, loading } => LaunchStep::CheckAddress {
            address,
            launch: Launch { loading, runtime_config },
        },
        LoadStep::LoadWasm { module_bytes, loading } => LaunchStep::LoadWasm {
            module_bytes,
            launch: Launch { loading, runtime_config },
        },
    }
}

/// Configures a runtime from the given [`ApplicationConfiguration`] and begins execution:
/// once the configuration is loaded, the runtime is to be created and run.
pub fn configure_and_run(
    app_config: ApplicationConfiguration,
    runtime_config: RuntimeConfiguration,
) -> (r: LaunchStep)
    ensures
        launches(
            r,
            advance(ConfigurationModel::start(app_config@), app_config@.nodes),
            runtime_config,
        ),
{
    launch_step(from_protobuf(app_config), runtime_config)
}

impl Launch {
    /// Goes on after the address of a gRPC server has been checked: see
    /// [`Loading::address_checked`].
    pub fn address_checked(self, address: Option<String>) -> (r: LaunchStep)
        ensures
            launches(
                r,
                self.loading@.address_checked(
                    match address {
                        Some(a) => Some(a@),
                        None => None,
                    },
                ),
                self.runtime_config,
            ),
    {
        launch_step(self.loading.address_checked(address), self.runtime_config)
    }

    /// Goes on after a WebAssembly module has been loaded: see [`Loading::module_loaded`].
    pub fn module_loaded(self, module: Option<u64>) -> (r: LaunchStep)
        ensures
            launches(r, self.loading@.module_loaded(module), self.runtime_config),
    {
        launch_step(self.loading.module_loaded(module), self.runtime_config)
    }
}

/// What the start of a runtime returns, once running it has brought `outcome`: a reference
/// to the runtime and a handle to send messages into it, or the error.
pub fn finish_run(runtime: RuntimeRef, outcome: Result<Handle, OakStatus>) -> (r: Result<
    (RuntimeRef, Handle),
    OakStatus,
>)
    ensures
        r == match outcome {
            Ok(handle) => Ok::<(RuntimeRef, Handle), OakStatus>((runtime, handle)),
            Err(status) => Err::<(RuntimeRef, Handle), OakStatus>(status),
        },
{
    match outcome {
        Ok(handle) => Ok((runtime, handle)),
        Err(status) => Err(status),
    }
}

/// What the outside check of one Node brings: where its address is checked, the address in
/// use, and where its module is loaded, the key under which it is kept; nothing where the
/// Node is refused.
pub struct Answer {
    pub address: Option<Seq<char>>,
    pub module: Option<u64>,
}

/// What the answer to the check of a Node makes of it: the Node as it is to run, or nothing
/// where it is refused.
pub open spec fn checked_kind(node: NodeConfigModel, answer: Answer) -> Option<NodeKindModel> {
    match node.config_type {
        None => None,
        Some(ConfigTypeModel::Log) => Some(NodeKindModel::LogNode),
        Some(ConfigTypeModel::GrpcServer(_)) => match answer.address {
            Some(a) => Some(NodeKindModel::GrpcServerNode(a)),
            None => None,
        },
        Some(ConfigTypeModel::Wasm(_)) => match answer.module {
            Some(m) => Some(NodeKindModel::WasmNode(m)),
            None => None,
        },
        Some(ConfigTypeModel::Other(_)) => Some(NodeKindModel::External),
    }
}

/// Whether every Node passes, given the answer to the check of each.
pub open spec fn all_pass(nodes: Seq<NodeConfigModel>, answers: Seq<Answer>) -> bool {
    forall|i: int| 0 <= i < nodes.len() ==> checked_kind(#[trigger] nodes[i], answers[i]) is Some
}

/// The answer for the Node that waits for its check. There is one answer for each configured
/// Node, in order.
pub open spec fn answer_for(loading: LoadingModel, answers: Seq<Answer>) -> Answer {
    answers[answers.len() - 1 - loading.rest.len()]
}

/// What the loading of a configuration comes to from the given step on, if every check that
/// it asks for is answered as given.
pub open spec fn loaded_from(
    step: LoadStepModel,
    answers: Seq<Answer>,
) -> Result<ConfigurationModel, OakStatus>
    decreases nodes_ahead(step),
{
    match step {
        LoadStepModel::Loaded(config) => Ok(config),
        LoadStepModel::Refused(status) => Err(status),
        LoadStepModel::CheckAddress(_, loading) => {
            let address = answer_for(loading, answers).address;
            proof {
                lemma_goes_on(loading, address, None);
            }
            loaded_from(loading.address_checked(address), answers)
        },
        LoadStepModel::LoadWasm(_, loading) => {
            let module = answer_for(loading, answers).module;
            proof {
                lemma_goes_on(loading, None, module);
            }
            loaded_from(loading.module_loaded(module), answers)
        },
    }
}

/// How many Nodes are still to be loaded, the one that waits for its check among them.
pub open spec fn nodes_ahead(step: LoadStepModel) -> nat {
    match step {
        LoadStepModel::Loaded(_) => 0,
        LoadStepModel::Refused(_) => 0,
        LoadStepModel::CheckAddress(_, loading) => loading.rest.len() + 1,
        LoadStepModel::LoadWasm(_, loading) => loading.rest.len() + 1,
    }
}

/// Loading Nodes never adds to what is ahead.
proof fn lemma_advance_bounded(config: ConfigurationModel, nodes: Seq<NodeConfigModel>)
    ensures
        nodes_ahead(advance(config, nodes)) <= nodes.len(),
    decreases nodes.len(),
{
    if nodes.len() > 0 {
        let name = nodes[0].name;
        lemma_advance_bounded(config.with_node(name, NodeKindModel::LogNode), nodes.drop_first());
        lemma_advance_bounded(config.with_node(name, NodeKindModel::External), nodes.drop_first());
    }
}

/// Each check brings the loading forward.
pub proof fn lemma_goes_on(loading: LoadingModel, address: Option<Seq<char>>, module: Option<u64>)
    ensures
        nodes_ahead(loading.address_checked(address)) <= loading.rest.len(),
        nodes_ahead(loading.module_loaded(module)) <= loading.rest.len(),
{
    if let Some(a) = address {
        lemma_advance_bounded(
            loading.config.with_node(loading.name, NodeKindModel::GrpcServerNode(a)),
            loading.rest,
        );
    }
    if let Some(m) = module {
        lemma_advance_bounded(
            loading.config.with_node(loading.name, NodeKindModel::WasmNode(m)),
            loading.rest,
        );
    }
}

/// The index of the last of the given Nodes that has the given name, or -1.
pub open spec fn last_named(nodes: Seq<NodeConfigModel>, name: Seq<char>) -> int
    decreases nodes.len(),
{
    if nodes.len() == 0 {
        -1
    } else if nodes.last().name == name {
        nodes.len() - 1
    } else {
        last_named(nodes.drop_last(), name)
    }
}

/// The configuration that holds the given Nodes, added in order to `config`.
pub open spec fn with_nodes(
    config: ConfigurationModel,
    nodes: Seq<NodeConfigModel>,
    answers: Seq<Answer>,
) -> ConfigurationModel
    decreases nodes.len(),
{
    if nodes.len() == 0 {
        config
    } else {
        with_nodes(config, nodes.drop_last(), answers.drop_last()).with_node(
            nodes.last().name,
            checked_kind(nodes.last(), answers.last())->0,
        )
    }
}

/// Adding the first Node and then the others adds them all.
proof fn lemma_with_nodes_first(
    config: ConfigurationModel,
    nodes: Seq<NodeConfigModel>,
    answers: Seq<Answer>,
)
    requires
        nodes.len() > 0,
        answers.len() == nodes.len(),
    ensures
        with_nodes(config, nodes, answers) == with_nodes(
            config.with_node(nodes[0].name, checked_kind(nodes[0], answers[0])->0),
            nodes.drop_first(),
            answers.drop_first(),
        ),
    decreases nodes.len(),
{
    let first = config.with_node(nodes[0].name, checked_kind(nodes[0], answers[0])->0);
    if nodes.len() == 1 {
        assert(with_nodes(config, nodes.drop_last(), answers.drop_last()) == config);
        assert(with_nodes(first, nodes.drop_first(), answers.drop_first()) == first);
    } else {
        lemma_with_nodes_first(config, nodes.drop_last(), answers.drop_last());
        assert(nodes.drop_last().drop_first() =~= nodes.drop_first().drop_last());
        assert(answers.drop_last().drop_first() =~= answers.drop_first().drop_last());
    }
}

/// The first Node passes and so do the others exactly if all pass.
proof fn lemma_all_pass_first(nodes: Seq<NodeConfigModel>, answers: Seq<Answer>)
    requires
        nodes.len() > 0,
        answers.len() == nodes.len(),
    ensures
        all_pass(nodes, answers) <==> checked_kind(nodes[0], answers[0]) is Some && all_pass(
            nodes.drop_first(),
            answers.drop_first(),
        ),
{
    let rest = nodes.drop_first();
    let rest_answers = answers.drop_first();
    if all_pass(nodes, answers) {
        assert forall|i: int| 0 <= i < rest.len() implies checked_kind(
            #[trigger] rest[i],
            rest_answers[i],
        ) is Some by {
            assert(rest[i] == nodes[i + 1]);
        }
    }
    if checked_kind(nodes[0], answers[0]) is Some && all_pass(rest, rest_answers) {
        assert forall|i: int| 0 <= i < nodes.len() implies checked_kind(
            #[trigger] nodes[i],
            answers[i],
        ) is Some by {
            if i > 0 {
                assert(rest[i - 1] == nodes[i]);
            }
        }
    }
}

/// What the loading of the last Nodes comes to, where `all` are the answers for these Nodes
/// and those before them.
proof fn lemma_loading(
    config: ConfigurationModel,
    nodes: Seq<NodeConfigModel>,
    answers: Seq<Answer>,
    all: Seq<Answer>,
)
    requires
        answers.len() == nodes.len(),
        answers.len() <= all.len(),
        answers == all.skip(all.len() - answers.len()),
    ensures
        loaded_from(advance(config, nodes), all) == if all_pass(nodes, answers) {
            Ok::<ConfigurationModel, OakStatus>(with_nodes(config, nodes, answers))
        } else {
            Err::<ConfigurationModel, OakStatus>(OakStatus::ErrInvalidArgs)
        },
    decreases nodes.len(),
{
    reveal_with_fuel(loaded_from, 2);
    if nodes.len() > 0 {
        let rest = nodes.drop_first();
        let rest_answers = answers.drop_first();
        let kind = checked_kind(nodes[0], answers[0]);
        assert(rest_answers =~= all.skip(all.len() - rest_answers.len()));
        assert(all[all.len() - 1 - rest.len()] == answers[0]);
        lemma_all_pass_first(nodes, answers);
        if kind is Some {
            let next = config.with_node(nodes[0].name, kind->0);
            lemma_loading(next, rest, rest_answers, all);
            lemma_with_nodes_first(config, nodes, answers);
            assert(loaded_from(advance(config, nodes), all) == loaded_from(
                advance(next, rest),
                all,
            ));
        }
    }
}

/// Loading a configuration succeeds exactly if every Node has a type and passes its check,
/// and brings a configuration that holds all of them. Where it fails, it fails for invalid
/// arguments. Each check may be answered in its own way, also where two Nodes are alike.
pub proof fn law_loading_succeeds_if_all_nodes_pass(
    config: ConfigurationModel,
    nodes: Seq<NodeConfigModel>,
    answers: Seq<Answer>,
)
    requires
        answers.len() == nodes.len(),
    ensures
        loaded_from(advance(config, nodes), answers) == if all_pass(nodes, answers) {
            Ok::<ConfigurationModel, OakStatus>(with_nodes(config, nodes, answers))
        } else {
            Err::<ConfigurationModel, OakStatus>(OakStatus::ErrInvalidArgs)
        },
{
    assert(answers =~= answers.skip(0));
    lemma_loading(config, nodes, answers, answers);
}

/// A loaded configuration holds a Node under each configured name, and no other; where a
/// name is configured more than once, the last one counts. Where it starts is as configured.
pub proof fn law_last_node_of_a_name_counts(
    app: AppConfigModel,
    answers: Seq<Answer>,
    name: Seq<char>,
)
    requires
        answers.len() == app.nodes.len(),
        all_pass(app.nodes, answers),
    ensures
        ({
            let step = advance(ConfigurationModel::start(app), app.nodes);
            let k = last_named(app.nodes, name);
            loaded_from(step, answers) matches Ok(config) && {
                &&& config.nodes.contains_key(name) <==> k >= 0
                &&& k >= 0 ==> Some(config.nodes[name]) == checked_kind(app.nodes[k], answers[k])
                &&& config.entry_module == app.initial_node
                &&& config.entrypoint == app.entrypoint
            }
        }),
{
    let start = ConfigurationModel::start(app);
    law_loading_succeeds_if_all_nodes_pass(start, app.nodes, answers);
    lemma_last_named(start, app.nodes, answers, name);
}

/// What adding Nodes to an empty configuration puts under a name.
proof fn lemma_last_named(
    start: ConfigurationModel,
    nodes: Seq<NodeConfigModel>,
    answers: Seq<Answer>,
    name: Seq<char>,
)
    requires
        start.nodes == Map::<Seq<char>, NodeKindModel>::empty(),
        answers.len() == nodes.len(),
        all_pass(nodes, answers),
    ensures
        -1 <= last_named(nodes, name) < nodes.len(),
        ({
            let config = with_nodes(start, nodes, answers);
            let k = last_named(nodes, name);
            &&& config.nodes.contains_key(name) <==> k >= 0
            &&& k >= 0 ==> Some(config.nodes[name]) == checked_kind(nodes[k], answers[k])
            &&& config.entry_module == start.entry_module
            &&& config.entrypoint == start.entrypoint
        }),
    decreases nodes.len(),
{
    if nodes.len() > 0 {
        let front = nodes.drop_last();
        let front_answers = answers.drop_last();
        assert forall|i: int| 0 <= i < front.len() implies checked_kind(
            #[trigger] front[i],
            front_answers[i],
        ) is Some by {
            assert(front[i] == nodes[i]);
        }
        lemma_last_named(start, front, front_answers, name);
        assert(checked_kind(nodes[nodes.len() - 1], answers[nodes.len() - 1]) is Some);
    }
}

/// The Nodes of an application that was put together from modules and a logger: the logger,
/// where there is one, counts even against a module of the same name.
pub proof fn law_logger_is_configured(modules: Seq<(Seq<char>, Seq<u8>)>, logger_name: Seq<char>)
    requires
        logger_name.len() > 0,
    ensures
        ({
            let nodes = module_nodes(modules) + logger_nodes(logger_name);
            &&& last_named(nodes, logger_name) == modules.len()
            &&& nodes[modules.len() as int].config_type == Some(ConfigTypeModel::Log)
        }),
{
}

/// There is only one way to list modules by name, whichever map they are kept in.
pub proof fn law_module_listing_is_unique(
    a: Seq<(Seq<char>, Seq<u8>)>,
    b: Seq<(Seq<char>, Seq<u8>)>,
    m: Map<String, Vec<u8>>,
    n: Map<String, Vec<u8>>,
)
    requires
        sorted::is_module_listing(a, m),
        sorted::is_module_listing(b, n),
        sorted::same_modules(m, n),
    ensures
        a == b,
{
    sorted::lemma_same_pairs(a, b, m, n);
    assert(sorted::same_modules(n, m)) by {
        assert forall|pair: (Seq<char>, Seq<u8>)| #[trigger]
            sorted::is_module(pair, n) <==> sorted::is_module(pair, m) by {
            assert(sorted::is_module(pair, m) <==> sorted::is_module(pair, n));
        }
    }
    sorted::lemma_same_pairs(b, a, n, m);
    sorted::lemma_by_name_unique(a, b);
}

/// The configuration of an application is determined by its modules and names: it does not
/// depend on the map that the modules were kept in, nor on the order in which that is walked.
pub proof fn law_configuration_is_determined(
    r: AppConfigModel,
    q: AppConfigModel,
    m: Map<String, Vec<u8>>,
    n: Map<String, Vec<u8>>,
    logger_name: Seq<char>,
    initial_node: Seq<char>,
    entrypoint: Seq<char>,
)
    requires
        configures(r, m, logger_name, initial_node, entrypoint),
        configures(q, n, logger_name, initial_node, entrypoint),
        sorted::same_modules(m, n),
    ensures
        r == q,
{
    let a = choose|a: Seq<(Seq<char>, Seq<u8>)>|
        r.nodes == #[trigger] module_nodes(a) + logger_nodes(logger_name)
            && sorted::is_module_listing(a, m);
    let b = choose|b: Seq<(Seq<char>, Seq<u8>)>|
        q.nodes == #[trigger] module_nodes(b) + logger_nodes(logger_name)
            && sorted::is_module_listing(b, n);
    law_module_listing_is_unique(a, b, m, n);
}

/// Where loading stops, and what it asks to be checked: what was configured. A stop with so
/// many Nodes left is at the Node before those. Its name is the one that waits, the address to
/// be checked or the bytes to be loaded are the ones in its configuration, whole and
/// unchanged, and what is left is what was configured after it. No Node before it needed a
/// check. Loading is refused at a Node without a type, and done where no Node needs a check.
pub proof fn law_asks_for_what_is_configured(
    config: ConfigurationModel,
    nodes: Seq<NodeConfigModel>,
)
    ensures
        match advance(config, nodes) {
            LoadStepModel::CheckAddress(address, loading) => {
                let i = nodes.len() - 1 - loading.rest.len();
                &&& 0 <= i < nodes.len()
                &&& nodes[i].config_type == Some(ConfigTypeModel::GrpcServer(address))
                &&& loading.name == nodes[i].name
                &&& loading.rest == nodes.skip(i + 1)
                &&& forall|j: int| 0 <= j < i ==> needs_no_check(#[trigger] nodes[j])
            },
            LoadStepModel::LoadWasm(bytes, loading) => {
                let i = nodes.len() - 1 - loading.rest.len();
                &&& 0 <= i < nodes.len()
                &&& nodes[i].config_type == Some(ConfigTypeModel::Wasm(bytes))
                &&& loading.name == nodes[i].name
                &&& loading.rest == nodes.skip(i + 1)
                &&& forall|j: int| 0 <= j < i ==> needs_no_check(#[trigger] nodes[j])
            },
            LoadStepModel::Refused(status) => {
                &&& status == OakStatus::ErrInvalidArgs
                &&& exists|i: int|
                    {
                        &&& 0 <= i < nodes.len()
                        &&& (#[trigger] nodes[i]).config_type is None
                        &&& forall|j: int| 0 <= j < i ==> needs_no_check(#[trigger] nodes[j])
                    }
            },
            LoadStepModel::Loaded(_) => forall|j: int|
                0 <= j < nodes.len() ==> needs_no_check(#[trigger] nodes[j]),
        },
    decreases nodes.len(),
{
    if nodes.len() > 0 {
        let rest = nodes.drop_first();
        assert(rest =~= nodes.skip(1));
        if needs_no_check(nodes[0]) {
            let kind = match nodes[0].config_type {
                Some(ConfigTypeModel::Log) => NodeKindModel::LogNode,
                _ => NodeKindModel::External,
            };
            let next = config.with_node(nodes[0].name, kind);
            law_asks_for_what_is_configured(next, rest);
            assert(advance(config, nodes) == advance(next, rest));
            match advance(next, rest) {
                LoadStepModel::CheckAddress(_, loading) => {
                    let i = rest.len() - 1 - loading.rest.len();
                    lemma_shift(nodes, i);
                    assert(rest[i] == nodes[i + 1]);
                    assert(rest.skip(i + 1) =~= nodes.skip(i + 2));
                },
                LoadStepModel::LoadWasm(_, loading) => {
                    let i = rest.len() - 1 - loading.rest.len();
                    lemma_shift(nodes, i);
                    assert(rest[i] == nodes[i + 1]);
                    assert(rest.skip(i + 1) =~= nodes.skip(i + 2));
                },
                LoadStepModel::Refused(_) => {
                    let i = choose|i: int|
                        {
                            &&& 0 <= i < rest.len()
                            &&& (#[trigger] rest[i]).config_type is None
                            &&& forall|j: int| 0 <= j < i ==> needs_no_check(#[trigger] rest[j])
                        };
                    lemma_shift(nodes, i);
                    assert(nodes[i + 1].config_type is None);
                },
                LoadStepModel::Loaded(_) => {
                    lemma_shift(nodes, rest.len() as int);
                },
            }
        } else if nodes[0].config_type is None {
            assert(nodes[0].config_type is None);
        }
    }
}

/// Whether a Node is loaded without a check: a logger, or one that is implemented elsewhere.
pub open spec fn needs_no_check(node: NodeConfigModel) -> bool {
    node.config_type == Some(ConfigTypeModel::Log) || node.config_type matches Some(
        ConfigTypeModel::Other(_),
    )
}

/// If the first Node and the first `n` of the others need no check, the first `n + 1` need
/// none.
proof fn lemma_shift(nodes: Seq<NodeConfigModel>, n: int)
    requires
        0 <= n < nodes.len(),
        needs_no_check(nodes[0]),
        forall|j: int| 0 <= j < n ==> needs_no_check(#[trigger] nodes.drop_first()[j]),
    ensures
        forall|j: int| 0 <= j < n + 1 ==> needs_no_check(#[trigger] nodes[j]),
{
    assert forall|j: int| 0 <= j < n + 1 implies needs_no_check(#[trigger] nodes[j]) by {
        if j > 0 {
            assert(nodes.drop_first()[j - 1] == nodes[j]);
        }
    }
}

/// The Nodes of a loaded configuration run as configured. Under each name is the last Node
/// that was configured with it: a logger, a gRPC server at the address that was answered to
/// its check, the module under the key that was answered, or a pseudo-Node that is
/// implemented elsewhere.
pub proof fn law_nodes_run_as_configured(app: AppConfigModel, answers: Seq<Answer>, k: int)
    requires
        answers.len() == app.nodes.len(),
        forall|i: int|
            0 <= i < app.nodes.len() ==> match (#[trigger] app.nodes[i]).config_type {
                None => false,
                Some(ConfigTypeModel::GrpcServer(_)) => answers[i].address is Some,
                Some(ConfigTypeModel::Wasm(_)) => answers[i].module is Some,
                _ => true,
            },
        0 <= k < app.nodes.len(),
        forall|j: int| k < j < app.nodes.len() ==> (#[trigger] app.nodes[j]).name != app.nodes[k].name,
    ensures
        loaded_from(
            advance(ConfigurationModel::start(app), app.nodes),
            answers,
        ) matches Ok(config) && {
            &&& config.nodes.contains_key(app.nodes[k].name)
            &&& config.nodes[app.nodes[k].name] == match app.nodes[k].config_type {
                Some(ConfigTypeModel::Log) => NodeKindModel::LogNode,
                Some(ConfigTypeModel::GrpcServer(_)) => NodeKindModel::GrpcServerNode(
                    answers[k].address->0,
                ),
                Some(ConfigTypeModel::Wasm(_)) => NodeKindModel::WasmNode(answers[k].module->0),
                _ => NodeKindModel::External,
            }
            &&& config.entry_module == app.initial_node
            &&& config.entrypoint == app.entrypoint
        },
{
    assert forall|i: int| 0 <= i < app.nodes.len() implies checked_kind(
        #[trigger] app.nodes[i],
        answers[i],
    ) is Some by {}
    let name = app.nodes[k].name;
    law_last_node_of_a_name_counts(app, answers, name);
    lemma_last_named_is(app.nodes, k);
}

/// A Node that no later one shares its name with is the last of its name.
proof fn lemma_last_named_is(nodes: Seq<NodeConfigModel>, k: int)
    requires
        0 <= k < nodes.len(),
        forall|j: int| k < j < nodes.len() ==> (#[trigger] nodes[j]).name != nodes[k].name,
    ensures
        last_named(nodes, nodes[k].name) == k,
    decreases nodes.len(),
{
    if k < nodes.len() - 1 {
        assert(nodes[nodes.len() - 1].name != nodes[k].name);
        let front = nodes.drop_last();
        assert forall|j: int| k < j < front.len() implies (#[trigger] front[j]).name
            != front[k].name by {
            assert(front[j] == nodes[j]);
        }
        lemma_last_named_is(front, k);
    }
}

/// A refused Node makes the loading fail for invalid arguments: one without a type, or one
/// whose check was answered with nothing.
pub proof fn law_refused_node_refuses_all(app: AppConfigModel, answers: Seq<Answer>, k: int)
    requires
        answers.len() == app.nodes.len(),
        0 <= k < app.nodes.len(),
        match app.nodes[k].config_type {
            None => true,
            Some(ConfigTypeModel::GrpcServer(_)) => answers[k].address is None,
            Some(ConfigTypeModel::Wasm(_)) => answers[k].module is None,
            _ => false,
        },
    ensures
        loaded_from(advance(ConfigurationModel::start(app), app.nodes), answers) == Err::<
            ConfigurationModel,
            OakStatus,
        >(OakStatus::ErrInvalidArgs),
{
    law_loading_succeeds_if_all_nodes_pass(ConfigurationModel::start(app), app.nodes, answers);
    assert(checked_kind(app.nodes[k], answers[k]) is None);
}

/// A runtime is started with what was loaded, and with the ports that were given at the
/// beginning, however many checks are made in between.
pub proof fn law_launch_runs_what_was_loaded(
    step: LaunchStep,
    load: LoadStepModel,
    runtime_config: RuntimeConfiguration,
)
    requires
        launches(step, load, runtime_config),
    ensures
        step matches LaunchStep::Run { configuration, runtime_config: given } ==> load
            == LoadStepModel::Loaded(configuration@) && given.metrics_port
            == runtime_config.metrics_port && given.introspect_port
            == runtime_config.introspect_port,
        step matches LaunchStep::Refused(status) ==> load == LoadStepModel::Refused(status),
        step matches LaunchStep::CheckAddress { address, launch } ==> load
            == LoadStepModel::CheckAddress(address@, launch.loading@)
            && launch.runtime_config.metrics_port == runtime_config.metrics_port
            && launch.runtime_config.introspect_port == runtime_config.introspect_port,
        step matches LaunchStep::LoadWasm { module_bytes, launch } ==> load
            == LoadStepModel::LoadWasm(module_bytes@, launch.loading@)
            && launch.runtime_config.metrics_port == runtime_config.metrics_port
            && launch.runtime_config.introspect_port == runtime_config.introspect_port,
{
}

/// How many Nodes of a configuration run modules: all but the logger, which is there if it
/// has a name.
pub open spec fn module_count(r: AppConfigModel, logger_name: Seq<char>) -> int {
    r.nodes.len() - if logger_name.len() > 0 {
        1int
    } else {
        0int
    }
}

/// The Nodes of an application's configuration run its modules, each with the name and all
/// the bytes of one of them, by name in ascending order; the logger comes after them.
pub proof fn law_configured_nodes_run_modules(
    r: AppConfigModel,
    modules: Map<String, Vec<u8>>,
    logger_name: Seq<char>,
    initial_node: Seq<char>,
    entrypoint: Seq<char>,
    i: int,
    j: int,
)
    requires
        configures(r, modules, logger_name, initial_node, entrypoint),
        0 <= i < j < module_count(r, logger_name) || 0 <= i == j < module_count(r, logger_name),
    ensures
        r.initial_node == initial_node,
        r.entrypoint == entrypoint,
        exists|k: String|
            {
                &&& #[trigger] modules.contains_key(k)
                &&& r.nodes[i].name == k@
                &&& r.nodes[i].config_type == Some(ConfigTypeModel::Wasm(modules[k]@))
            },
        i < j ==> sorted::name_before(r.nodes[i].name, r.nodes[j].name),
{
    let listing = choose|listing: Seq<(Seq<char>, Seq<u8>)>|
        r.nodes == #[trigger] module_nodes(listing) + logger_nodes(logger_name)
            && sorted::is_module_listing(listing, modules);
    assert(module_count(r, logger_name) == listing.len());
    assert(r.nodes[i] == module_nodes(listing)[i]);
    assert(r.nodes[j] == module_nodes(listing)[j]);
    assert(sorted::is_module(listing[i], modules));
    let k = choose|k: String| #[trigger]
        modules.contains_key(k) && listing[i] == (k@, modules[k]@);
    assert(modules.contains_key(k));
}

/// Every module is run by some Node of an application's configuration, under its name and
/// with all of its bytes.
pub proof fn law_every_module_is_configured(
    r: AppConfigModel,
    modules: Map<String, Vec<u8>>,
    logger_name: Seq<char>,
    initial_node: Seq<char>,
    entrypoint: Seq<char>,
    k: String,
)
    requires
        configures(r, modules, logger_name, initial_node, entrypoint),
        modules.contains_key(k),
    ensures
        exists|i: int|
            {
                &&& 0 <= i < module_count(r, logger_name)
                &&& (#[trigger] r.nodes[i]).name == k@
                &&& r.nodes[i].config_type == Some(ConfigTypeModel::Wasm(modules[k]@))
            },
{
    let listing = choose|listing: Seq<(Seq<char>, Seq<u8>)>|
        r.nodes == #[trigger] module_nodes(listing) + logger_nodes(logger_name)
            && sorted::is_module_listing(listing, modules);
    assert(module_count(r, logger_name) == listing.len());
    assert(listing.contains((k@, modules[k]@)));
    let i = choose|i: int| 0 <= i < listing.len() && listing[i] == (k@, modules[k]@);
    assert(r.nodes[i] == module_nodes(listing)[i]);
}

/// The logger, where it has a name, is the last Node of an application's configuration.
pub proof fn law_logger_comes_last(
    r: AppConfigModel,
    modules: Map<String, Vec<u8>>,
    logger_name: Seq<char>,
    initial_node: Seq<char>,
    entrypoint: Seq<char>,
)
    requires
        configures(r, modules, logger_name, initial_node, entrypoint),
        logger_name.len() > 0,
    ensures
        r.nodes.len() > 0,
        r.nodes.last().name == logger_name,
        r.nodes.last().config_type == Some(ConfigTypeModel::Log),
{
}

/// A runtime that runs is returned with the handle that running it brought, and the error is
/// returned where it does not run.
pub proof fn law_run_is_reported(
    runtime: RuntimeRef,
    outcome: Result<Handle, OakStatus>,
    r: Result<(RuntimeRef, Handle), OakStatus>,
)
    requires
        call_ensures(finish_run, (runtime, outcome), r),
    ensures
        r is Ok <==> outcome is Ok,
        r is Ok ==> (r->Ok_0).0 == runtime && (r->Ok_0).1 == outcome->Ok_0,
        r is Err ==> r->Err_0 == outcome->Err_0,
{
}

/// To start a runtime is to load its configuration: the start asks for the same checks, is
/// refused with the same error, and runs what loading comes to, with the given ports.
pub proof fn law_start_loads_the_configuration(
    app_config: ApplicationConfiguration,
    runtime_config: RuntimeConfiguration,
    loaded: LoadStep,
    step: LaunchStep,
)
    requires
        call_ensures(from_protobuf, (app_config,), loaded),
        call_ensures(configure_and_run, (app_config, runtime_config), step),
    ensures
        loaded matches LoadStep::Loaded(config) ==> step is Run && step->configuration@ == config@
            && step->Run_runtime_config == runtime_config,
        loaded matches LoadStep::Refused(status) ==> step == LaunchStep::Refused(status),
        loaded matches LoadStep::CheckAddress { address, loading } ==> step is CheckAddress
            && step->address@ == address@ && step->CheckAddress_launch.loading@ == loading@
            && step->CheckAddress_launch.runtime_config == runtime_config,
        loaded matches LoadStep::LoadWasm { module_bytes, loading } ==> step is LoadWasm
            && step->module_bytes@ == module_bytes@ && step->LoadWasm_launch.loading@ == loading@
            && step->LoadWasm_launch.runtime_config == runtime_config,
{
}

/// What loading asks for first is what is in the configuration that was given: the bytes of a
/// module or the address of a server, of the Node whose name waits.
pub proof fn law_loading_asks_for_its_own_nodes(app_config: ApplicationConfiguration, step: LoadStep)
    requires
        call_ensures(from_protobuf, (app_config,), step),
    ensures
        step matches LoadStep::LoadWasm { module_bytes, loading } ==> {
            let i = app_config.node_configs@.len() - 1 - loading@.rest.len();
            &&& 0 <= i < app_config.node_configs@.len()
            &&& app_config.node_configs@[i].name@ == loading@.name
            &&& app_config.node_configs@[i].config_type matches Some(ConfigType::WasmConfig(wasm))
                && wasm.module_bytes@ == module_bytes@
        },
        step matches LoadStep::CheckAddress { address, loading } ==> {
            let i = app_config.node_configs@.len() - 1 - loading@.rest.len();
            &&& 0 <= i < app_config.node_configs@.len()
            &&& app_config.node_configs@[i].name@ == loading@.name
            &&& app_config.node_configs@[i].config_type matches Some(
                ConfigType::GrpcServerConfig(grpc),
            ) && grpc.address@ == address@
        },
{
    let nodes = app_config@.nodes;
    law_asks_for_what_is_configured(ConfigurationModel::start(app_config@), nodes);
    match step@ {
        LoadStepModel::CheckAddress(_, loading) => {
            let i = nodes.len() - 1 - loading.rest.len();
            assert(nodes[i] == app_config.node_configs@[i]@);
        },
        LoadStepModel::LoadWasm(_, loading) => {
            let i = nodes.len() - 1 - loading.rest.len();
            assert(nodes[i] == app_config.node_configs@[i]@);
        },
        _ => {},
    }
}

} // verus!
