use oak_runtime::abi::{read_handles, write_handles, OakStatus, INVALID_HANDLE};
use oak_runtime::config::{
    ApplicationConfiguration, LaunchStep, NodeConfiguration, RuntimeConfiguration,
};
use oak_runtime::cpp_main::{finish_start, glue_start, StartStep};
use oak_runtime::glue::{
    create_and_run_node, finish_wait_on_channels, glue_channel_read, glue_channel_write,
    glue_register_factory, glue_unregister_factory, glue_wait_on_channels, status_of,
    FactoryRegistry, NodeId, NodeMessage, NodeReadStatus,
};
use oak_runtime::proxy::{clear, for_node, set_runtime, ProxySlot, RuntimeProxy};

#[test]
fn status_numbers() {
    let all = [
        OakStatus::Okay,
        OakStatus::ErrBadHandle,
        OakStatus::ErrInvalidArgs,
        OakStatus::ErrChannelClosed,
        OakStatus::ErrBufferTooSmall,
        OakStatus::ErrHandleSpaceTooSmall,
        OakStatus::ErrOutOfRange,
        OakStatus::ErrInternal,
        OakStatus::ErrTerminated,
        OakStatus::ErrChannelEmpty,
        OakStatus::ErrPermissionDenied,
    ];
    for (i, status) in all.iter().enumerate() {
        assert_eq!(status.code(), i as u32 + 1);
    }
}

#[test]
fn handles_are_little_endian() {
    let bytes = write_handles(&vec![0x0102_0304_0506_0708, 1]);
    assert_eq!(bytes, vec![8, 7, 6, 5, 4, 3, 2, 1, 1, 0, 0, 0, 0, 0, 0, 0]);
    assert_eq!(read_handles(&bytes, 8, 2), vec![0x0102_0304_0506_0708, 1]);
}

#[test]
fn handles_round_trip() {
    let handles = vec![0, u64::MAX, 0xff00_0000_0000_0000, 256, 0x8000_0000_0000_0001];
    let bytes = write_handles(&handles);
    assert_eq!(bytes.len(), 40);
    assert_eq!(read_handles(&bytes, 8, 5), handles);
    assert!(write_handles(&vec![]).is_empty());
    assert!(read_handles(&[], 8, 0).is_empty());
}

#[test]
fn wait_reads_handles_and_writes_statuses() {
    let mut buf = vec![5, 0, 0, 0, 0, 0, 0, 0, 99, 0, 1, 0, 0, 0, 0, 0, 0, 98];
    let handles = glue_wait_on_channels(&buf, 2);
    assert_eq!(handles, vec![5, 256]);
    assert_eq!(finish_wait_on_channels(&mut buf, &handles, Ok(vec![1, 3])), 1);
    assert_eq!(buf, vec![5, 0, 0, 0, 0, 0, 0, 0, 1, 0, 1, 0, 0, 0, 0, 0, 0, 3]);
    assert_eq!(glue_wait_on_channels(&buf, 2), handles);
}

#[test]
fn wait_reports_errors() {
    let mut buf = vec![5, 0, 0, 0, 0, 0, 0, 0, 99];
    let before = buf.clone();
    let handles = glue_wait_on_channels(&buf, 1);
    assert_eq!(
        finish_wait_on_channels(&mut buf, &handles, Err(OakStatus::ErrTerminated)),
        OakStatus::ErrTerminated.code()
    );
    assert_eq!(
        finish_wait_on_channels(&mut buf, &handles, Ok(vec![1, 2])),
        OakStatus::ErrInternal.code()
    );
    assert_eq!(
        finish_wait_on_channels(&mut buf, &handles, Ok(vec![])),
        OakStatus::ErrInternal.code()
    );
    assert_eq!(buf, before);
}

#[test]
fn read_of_a_message() {
    let msg = NodeMessage { data: vec![1, 2, 3], handles: vec![258, 4] };
    let reply = glue_channel_read(10, Ok(Some(NodeReadStatus::Success(msg))));
    assert_eq!(reply.status, OakStatus::Okay.code());
    assert_eq!(reply.actual, Some((3, 2)));
    assert_eq!(reply.data, vec![1, 2, 3]);
    assert_eq!(
        reply.handle_data,
        vec![2, 1, 0, 0, 0, 0, 0, 0, 4, 0, 0, 0, 0, 0, 0, 0]
    );
}

#[test]
fn read_without_a_message() {
    let reply = glue_channel_read(10, Ok(None));
    assert_eq!(reply.status, OakStatus::ErrChannelEmpty.code());
    assert_eq!(reply.actual, Some((0, 0)));
    let reply = glue_channel_read(10, Err(OakStatus::ErrBadHandle));
    assert_eq!(reply.status, OakStatus::ErrBadHandle.code());
    assert_eq!(reply.actual, None);
    assert!(reply.data.is_empty() && reply.handle_data.is_empty());
}

#[test]
fn read_into_too_little_space() {
    let reply = glue_channel_read(10, Ok(Some(NodeReadStatus::NeedsCapacity(11, 0))));
    assert_eq!(reply.status, OakStatus::ErrBufferTooSmall.code());
    assert_eq!(reply.actual, Some((11, 0)));
    let reply = glue_channel_read(10, Ok(Some(NodeReadStatus::NeedsCapacity(10, 3))));
    assert_eq!(reply.status, OakStatus::ErrHandleSpaceTooSmall.code());
    assert_eq!(reply.actual, Some((10, 3)));
}

#[test]
fn write_of_what_was_read() {
    let msg = NodeMessage { data: vec![9], handles: vec![77, u64::MAX] };
    let reply = glue_channel_read(1, Ok(Some(NodeReadStatus::Success(msg))));
    let written = glue_channel_write(reply.data, &reply.handle_data, 2);
    assert_eq!(written.data, vec![9]);
    assert_eq!(written.handles, vec![77, u64::MAX]);
    assert_eq!(status_of(Ok(())), OakStatus::Okay.code());
    assert_eq!(
        status_of(Err(OakStatus::ErrChannelClosed)),
        OakStatus::ErrChannelClosed.code()
    );
}

#[test]
fn factory_is_registered_and_called() {
    let mut registry: FactoryRegistry<char> = FactoryRegistry::new();
    assert!(!registry.is_registered());
    glue_register_factory(&mut registry, Some('a'), 1);
    glue_register_factory(&mut registry, Some('b'), 2);
    assert!(registry.is_registered());
    let call = create_and_run_node(&registry, "n\u{f6}de", NodeId(6), 7);
    assert_eq!(call.factory, 'b');
    assert_eq!(call.factory_data, 2);
    assert_eq!(call.name_len, 5);
    assert_eq!(call.node_id, 6);
    assert_eq!(call.handle, 7);
    glue_unregister_factory(&mut registry);
    assert!(!registry.is_registered());
}

#[test]
fn proxy_is_remade_for_nodes() {
    let mut slot = ProxySlot::new();
    assert!(!slot.is_set());
    set_runtime(&mut slot, RuntimeProxy { runtime: 3, node_id: NodeId(1) });
    assert_eq!(for_node(&slot, 9), RuntimeProxy { runtime: 3, node_id: NodeId(9) });
    set_runtime(&mut slot, RuntimeProxy { runtime: 4, node_id: NodeId(1) });
    assert_eq!(for_node(&slot, 1), RuntimeProxy { runtime: 4, node_id: NodeId(1) });
    clear(&mut slot);
    assert!(!slot.is_set());
}

fn empty_app() -> ApplicationConfiguration {
    ApplicationConfiguration {
        node_configs: vec![],
        initial_node_config_name: "app".to_string(),
        initial_entrypoint_name: "main".to_string(),
    }
}

#[test]
fn start_without_a_configuration_fails() {
    match glue_start(None) {
        StartStep::Failed(handle) => assert_eq!(handle, INVALID_HANDLE),
        StartStep::Launching(_) => panic!("nothing to launch"),
    }
}

#[test]
fn start_runs_with_its_ports() {
    match glue_start(Some(empty_app())) {
        StartStep::Launching(LaunchStep::Run { configuration, runtime_config }) => {
            assert_eq!(configuration.entry_module, "app");
            assert_eq!(configuration.entrypoint, "main");
            assert_eq!(
                runtime_config,
                RuntimeConfiguration { metrics_port: Some(3030), introspect_port: Some(1909) }
            );
        }
        _ => panic!("nothing to check"),
    }
}

#[test]
fn start_refuses_a_bad_configuration() {
    let mut app = empty_app();
    app.node_configs
        .push(NodeConfiguration { name: "x".to_string(), config_type: None });
    match glue_start(Some(app)) {
        StartStep::Launching(LaunchStep::Refused(status)) => {
            assert_eq!(status, OakStatus::ErrInvalidArgs)
        }
        _ => panic!("must be refused"),
    }
}

#[test]
fn finished_start_keeps_the_runtime() {
    let mut slot = ProxySlot::new();
    let reply = finish_start(&mut slot, Err(OakStatus::ErrInvalidArgs));
    assert_eq!((reply.handle, reply.node_id), (INVALID_HANDLE, None));
    assert!(!slot.is_set());
    let proxy = RuntimeProxy { runtime: 1, node_id: NodeId(5) };
    let reply = finish_start(&mut slot, Ok((proxy, 8)));
    assert_eq!((reply.handle, reply.node_id), (8, Some(5)));
    assert_eq!(for_node(&slot, 5), proxy);
}
