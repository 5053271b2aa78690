//! The rules that hold where foreign code starts the runtime.
use crate::abi;
use crate::abi::{Handle, OakStatus};
use crate::config;
use crate::config::{ApplicationConfiguration, ConfigurationModel, LaunchStep, RuntimeConfiguration};
use crate::proxy;
use crate::proxy::{ProxySlot, RuntimeProxy};
use vstd::prelude::*;

verus! {

/// What the request to start a runtime leads to.
pub enum StartStep {
    /// The request is answered with the given handle, which refers to nothing.
    Failed(Handle),
    /// The runtime is being started.
    Launching(LaunchStep),
}

/// The ports on which the services of a runtime run that foreign code has started.
pub open spec fn start_ports() -> RuntimeConfiguration {
    RuntimeConfiguration { metrics_port: Some(3030), introspect_port: Some(1909) }
}

/// Starts the runtime with the configuration that was decoded from the request, or fails
/// where it could not be decoded.
pub fn glue_start(decoded: Option<ApplicationConfiguration>) -> (r: StartStep)
    ensures
        match decoded {
            None => r == StartStep::Failed(abi::INVALID_HANDLE),
            Some(app_config) => r matches StartStep::Launching(step) && config::launches(
                step,
                config::advance(ConfigurationModel::start(app_config@), app_config@.nodes),
                start_ports(),
            ),
        },
{
    match decoded {
        None => StartStep::Failed(abi::INVALID_HANDLE),
        Some(app_config) => {
            let runtime_config = RuntimeConfiguration {
                metrics_port: Some(3030),
                introspect_port: Some(1909),
            };
            StartStep::Launching(config::configure_and_run(app_config, runtime_config))
        },
    }
}

/// The answer to the request to start a runtime.
pub struct StartReply {
    /// The handle of the initial channel, or the invalid handle.
    pub handle: Handle,
    /// The identifier of the initial Node, where it is reported.
    pub node_id: Option<u64>,
}

/// Answers the request to start a runtime, once the start has brought `outcome`: the runtime
/// is kept for foreign code to reach, and its initial Node and handle are reported.
pub fn finish_start(
    slot: &mut ProxySlot,
    outcome: Result<(RuntimeProxy, Handle), OakStatus>,
) -> (r: StartReply)
    ensures
        match outcome {
            Ok((grpc_proxy, grpc_handle)) => {
                &&& r.handle == grpc_handle
                &&& r.node_id == Some(grpc_proxy.node_id.0)
                &&& final(slot)@ == Some(grpc_proxy)
            },
            Err(_) => {
                &&& r.handle == abi::INVALID_HANDLE
                &&& r.node_id == None::<u64>
                &&& final(slot)@ == old(slot)@
            },
        },
{
    match outcome {
        Ok((grpc_proxy, grpc_handle)) => {
            let node_id: u64 = grpc_proxy.node_id.0;
            proxy::set_runtime(slot, grpc_proxy);
            StartReply { handle: grpc_handle, node_id: Some(node_id) }
        },
        Err(_) => StartReply { handle: abi::INVALID_HANDLE, node_id: None },
    }
}

/// A runtime that foreign code starts serves metrics on one port and introspection on
/// another.
pub proof fn law_start_ports()
    ensures
        start_ports().metrics_port == Some(3030u16),
        start_ports().introspect_port == Some(1909u16),
{
}

/// A request to start a runtime that cannot be read is answered with the handle that refers to
/// nothing; any other starts what it asks for, on the ports for foreign code.
pub proof fn law_start_is_as_requested(
    decoded: Option<ApplicationConfiguration>,
    r: StartStep,
    step: LaunchStep,
)
    requires
        call_ensures(glue_start, (decoded,), r),
        r == StartStep::Launching(step),
    ensures
        decoded is Some,
        step matches LaunchStep::Run { configuration, runtime_config } ==> {
            &&& runtime_config.metrics_port == Some(3030u16)
            &&& runtime_config.introspect_port == Some(1909u16)
            &&& configuration@.entry_module == (decoded->0).initial_node_config_name@
            &&& configuration@.entrypoint == (decoded->0).initial_entrypoint_name@
        },
{
    let app = (decoded->0)@;
    lemma_advance_keeps_start(ConfigurationModel::start(app), app.nodes);
}

/// Loading Nodes does not change where a configuration starts.
proof fn lemma_advance_keeps_start(
    config: ConfigurationModel,
    nodes: Seq<config::NodeConfigModel>,
)
    ensures
        config::advance(config, nodes) matches config::LoadStepModel::Loaded(loaded)
            ==> loaded.entry_module == config.entry_module && loaded.entrypoint
            == config.entrypoint,
    decreases nodes.len(),
{
    if nodes.len() > 0 {
        let name = nodes[0].name;
        let rest = nodes.drop_first();
        lemma_advance_keeps_start(
            config.with_node(name, config::NodeKindModel::LogNode),
            rest,
        );
        lemma_advance_keeps_start(
            config.with_node(name, config::NodeKindModel::External),
            rest,
        );
    }
}

} // verus!
