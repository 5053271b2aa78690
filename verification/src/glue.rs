//! The rules of the interface through which foreign pseudo-Nodes reach the runtime: how
//! handles and messages are laid out in memory, and what each operation answers.
//!
//! The caller copies memory in and out and makes the calls into the runtime; the functions
//! here say which bytes mean what, and which answer follows from which outcome.
use crate::abi;
use crate::abi::{Handle, OakStatus};
use vstd::prelude::*;

verus! {

/// The identifier of a Node.
#[derive(PartialEq, Eq, Hash, Clone, Copy, Debug, Structural)]
pub struct NodeId(pub u64);

/// A message as a Node sees it: its bytes, and the handles of the halves that travel in it.
pub struct NodeMessage {
    pub data: Vec<u8>,
    pub handles: Vec<Handle>,
}

/// What the attempt to read a message brought.
pub enum NodeReadStatus {
    /// A message.
    Success(NodeMessage),
    /// A message is there, but more space is needed: so many bytes and so many handles.
    NeedsCapacity(usize, usize),
}

/// The bytes of a list of handles to wait on, after the status of each handle has been
/// written behind it.
pub open spec fn with_statuses(buf: Seq<u8>, statuses: Seq<u8>) -> Seq<u8> {
    Seq::new(
        buf.len(),
        |k: int|
            if k % 9 == 8 && k / 9 < statuses.len() {
                statuses[k / 9]
            } else {
                buf[k]
            },
    )
}

/// The handles to wait on: each is followed by a byte for its status, which is skipped.
pub fn glue_wait_on_channels(buf: &Vec<u8>, count: u32) -> (r: Vec<Handle>)
    requires
        buf@.len() == 9 * count,
    ensures
        r@ == abi::handles_in(buf@, 9, count as nat),
{
    abi::read_handles(buf.as_slice(), abi::SPACE_BYTES_PER_HANDLE, count as usize)
}

/// Answers a request to wait on `handles`, once the wait has brought `outcome`: either the
/// status of each handle, which is written into `buf`, or an error.
pub fn finish_wait_on_channels(
    buf: &mut Vec<u8>,
    handles: &Vec<Handle>,
    outcome: Result<Vec<u8>, OakStatus>,
) -> (r: u32)
    requires
        old(buf)@.len() == 9 * handles@.len(),
    ensures
        match outcome {
            Err(status) => r == status.spec_code() && final(buf)@ == old(buf)@,
            Ok(statuses) => if statuses@.len() != handles@.len() {
                r == OakStatus::ErrInternal.spec_code() && final(buf)@ == old(buf)@
            } else {
                r == OakStatus::Okay.spec_code() && final(buf)@ == with_statuses(
                    old(buf)@,
                    statuses@,
                )
            },
        },
{
    let statuses = match outcome {
        Ok(statuses) => statuses,
        Err(status) => {
            return status.code();
        },
    };
    if statuses.len() != handles.len() {
        return OakStatus::ErrInternal.code();
    }
    let ghost before = buf@;
    let len: usize = buf.len();
    let mut i: usize = 0;
    assert(with_statuses(before, statuses@.take(0)) =~= before);
    while i < statuses.len()
        invariant
            before == old(buf)@,
            len == before.len(),
            before.len() == 9 * statuses@.len(),
            i <= statuses.len(),
            buf@ == with_statuses(before, statuses@.take(i as int)),
        decreases statuses.len() - i,
    {
        buf.set(i * abi::SPACE_BYTES_PER_HANDLE + (abi::SPACE_BYTES_PER_HANDLE - 1), statuses[i]);
        assert(buf@ =~= with_statuses(before, statuses@.take(i + 1)));
        i = i + 1;
    }
    assert(statuses@.take(i as int) =~= statuses@);
    OakStatus::Okay.code()
}

/// The answer to a request to read a message.
pub struct ChannelReadReply {
    /// The status of the request.
    pub status: u32,
    /// The number of bytes and of handles to report, where they are reported.
    pub actual: Option<(u32, u32)>,
    /// The bytes of the message.
    pub data: Vec<u8>,
    /// The bytes of the message's handles.
    pub handle_data: Vec<u8>,
}

/// Whether the numbers that a read is answered with fit into the space for them.
pub open spec fn fits_reply(outcome: Result<Option<NodeReadStatus>, OakStatus>) -> bool {
    match outcome {
        Ok(Some(NodeReadStatus::Success(msg))) => msg.data@.len() <= u32::MAX
            && msg.handles@.len() <= u32::MAX,
        Ok(Some(NodeReadStatus::NeedsCapacity(a, b))) => a <= u32::MAX && b <= u32::MAX,
        _ => true,
    }
}

/// Answers a request to read a message into `size` bytes, once the attempt has brought
/// `outcome`.
pub fn glue_channel_read(
    size: usize,
    outcome: Result<Option<NodeReadStatus>, OakStatus>,
) -> (r: ChannelReadReply)
    requires
        fits_reply(outcome),
    ensures
        match outcome {
            Err(status) => {
                &&& r.status == status.spec_code()
                &&& r.actual == None::<(u32, u32)>
                &&& r.data@ == Seq::<u8>::empty()
                &&& r.handle_data@ == Seq::<u8>::empty()
            },
            Ok(None) => {
                &&& r.status == OakStatus::ErrChannelEmpty.spec_code()
                &&& r.actual == Some((0u32, 0u32))
                &&& r.data@ == Seq::<u8>::empty()
                &&& r.handle_data@ == Seq::<u8>::empty()
            },
            Ok(Some(NodeReadStatus::Success(msg))) => {
                &&& r.status == OakStatus::Okay.spec_code()
                &&& r.actual == Some((msg.data@.len() as u32, msg.handles@.len() as u32))
                &&& r.data@ == msg.data@
                &&& r.handle_data@ == abi::handle_bytes(msg.handles@)
            },
            Ok(Some(NodeReadStatus::NeedsCapacity(a, b))) => {
                &&& r.status == if a > size {
                    OakStatus::ErrBufferTooSmall.spec_code()
                } else {
                    OakStatus::ErrHandleSpaceTooSmall.spec_code()
                }
                &&& r.actual == Some((a as u32, b as u32))
                &&& r.data@ == Seq::<u8>::empty()
                &&& r.handle_data@ == Seq::<u8>::empty()
            },
        },
{
    let msg = match outcome {
        Ok(msg) => msg,
        Err(status) => {
            return ChannelReadReply {
                status: status.code(),
                actual: None,
                data: Vec::new(),
                handle_data: Vec::new(),
            };
        },
    };
    match msg {
        None => ChannelReadReply {
            status: OakStatus::ErrChannelEmpty.code(),
            actual: Some((0, 0)),
            data: Vec::new(),
            handle_data: Vec::new(),
        },
        Some(NodeReadStatus::Success(msg)) => {
            let actual = (msg.data.len() as u32, msg.handles.len() as u32);
            let handle_data = abi::write_handles(&msg.handles);
            ChannelReadReply {
                status: OakStatus::Okay.code(),
                actual: Some(actual),
                data: msg.data,
                handle_data,
            }
        },
        Some(NodeReadStatus::NeedsCapacity(a, b)) => {
            let status = if a > size {
                OakStatus::ErrBufferTooSmall
            } else {
                OakStatus::ErrHandleSpaceTooSmall
            };
            ChannelReadReply {
                status: status.code(),
                actual: Some((a as u32, b as u32)),
                data: Vec::new(),
                handle_data: Vec::new(),
            }
        },
    }
}

/// The message to be written: the given bytes, and the handles that `handle_buf` holds.
pub fn glue_channel_write(data: Vec<u8>, handle_buf: &Vec<u8>, handle_count: u32) -> (r:
    NodeMessage)
    requires
        handle_buf@.len() == 8 * handle_count,
    ensures
        r.data@ == data@,
        r.handles@ == abi::handles_in(handle_buf@, 8, handle_count as nat),
{
    let handles = abi::read_handles(
        handle_buf.as_slice(),
        abi::BYTES_PER_HANDLE,
        handle_count as usize,
    );
    NodeMessage { data, handles }
}

/// Answers a request that has no other answer than its status, such as one to write a
/// message or to close a channel.
pub fn status_of(outcome: Result<(), OakStatus>) -> (r: u32)
    ensures
        r == match outcome {
            Ok(_) => OakStatus::Okay.spec_code(),
            Err(status) => status.spec_code(),
        },
{
    match outcome {
        Ok(_) => OakStatus::Okay.code(),
        Err(status) => status.code(),
    }
}

/// Writing statuses leaves the handles in the list as they are.
pub proof fn law_statuses_keep_handles(buf: Seq<u8>, statuses: Seq<u8>, count: nat)
    requires
        buf.len() == 9 * count,
    ensures
        abi::handles_in(with_statuses(buf, statuses), 9, count) == abi::handles_in(buf, 9, count),
{
    let after = with_statuses(buf, statuses);
    assert forall|i: int| 0 <= i < count implies #[trigger] abi::handles_in(after, 9, count)[i]
        == abi::handles_in(buf, 9, count)[i] by {
        assert(after.subrange(i * 9, i * 9 + 8) =~= buf.subrange(i * 9, i * 9 + 8));
    }
    assert(abi::handles_in(after, 9, count) =~= abi::handles_in(buf, 9, count));
}

/// The registered means to create foreign pseudo-Nodes: a factory, and the data that it is
/// to be called with.
pub struct FactoryRegistry<F> {
    pair: Option<(F, usize)>,
}

impl<F> View for FactoryRegistry<F> {
    type V = Option<(F, usize)>;

    closed spec fn view(&self) -> Option<(F, usize)> {
        self.pair
    }
}

impl<F> FactoryRegistry<F> {
    /// Creates a registry with nothing registered.
    pub fn new() -> (r: Self)
        ensures
            r@ == None::<(F, usize)>,
    {
        FactoryRegistry { pair: None }
    }

    /// Returns whether a factory is registered.
    pub fn is_registered(&self) -> (r: bool)
        ensures
            r == (self@ is Some),
    {
        self.pair.is_some()
    }
}

/// Registers a factory for foreign pseudo-Nodes. An earlier one is replaced.
pub fn glue_register_factory<F>(
    registry: &mut FactoryRegistry<F>,
    factory: Option<F>,
    factory_data: usize,
)
    requires
        factory is Some,
    ensures
        final(registry)@ == Some((factory->0, factory_data)),
{
    registry.pair = Some((factory.unwrap(), factory_data));
}

/// Clears the registered factory.
pub fn glue_unregister_factory<F>(registry: &mut FactoryRegistry<F>)
    ensures
        final(registry)@ == None::<(F, usize)>,
{
    registry.pair = None;
}

/// A call of the registered factory; the text of the name is passed beside it.
pub struct FactoryCall<F> {
    pub factory: F,
    pub factory_data: usize,
    pub name_len: u32,
    pub node_id: u64,
    pub handle: Handle,
}

/// The call by which the registered factory creates a pseudo-Node and runs it.
pub fn create_and_run_node<F: Copy>(
    registry: &FactoryRegistry<F>,
    config_name: &str,
    node_id: NodeId,
    handle: Handle,
) -> (r: FactoryCall<F>)
    requires
        registry@ is Some,
    ensures
        r.factory == (registry@->0).0,
        r.factory_data == (registry@->0).1,
        r.name_len == config_name.len() as u32,
        r.node_id == node_id.0,
        r.handle == handle,
{
    let (factory, factory_data) = registry.pair.unwrap();
    FactoryCall {
        factory,
        factory_data,
        name_len: #[verifier::truncate]
        (config_name.len() as u32),
        node_id: node_id.0,
        handle,
    }
}

/// After a wait, the byte behind each handle is its status, whatever that is, and every other
/// byte is as before.
pub proof fn law_statuses_are_written_as_they_are(buf: Seq<u8>, statuses: Seq<u8>)
    requires
        buf.len() == 9 * statuses.len(),
    ensures
        with_statuses(buf, statuses).len() == buf.len(),
        forall|i: int|
            0 <= i < statuses.len() ==> with_statuses(buf, statuses)[9 * i + 8]
                == #[trigger] statuses[i],
        forall|k: int|
            0 <= k < buf.len() && k % 9 != 8 ==> #[trigger] with_statuses(buf, statuses)[k]
                == buf[k],
{
    assert forall|i: int| 0 <= i < statuses.len() implies with_statuses(buf, statuses)[9 * i + 8]
        == #[trigger] statuses[i] by {
        assert((9 * i + 8) % 9 == 8 && (9 * i + 8) / 9 == i);
    }
}

/// What a read is answered: the number that stands for its status, the numbers of bytes and
/// handles of the message or of the space that it needs, and the message itself, with its
/// handles as bytes that a write gives back.
pub proof fn law_read_is_answered(
    size: usize,
    outcome: Result<Option<NodeReadStatus>, OakStatus>,
    r: ChannelReadReply,
)
    requires
        fits_reply(outcome),
        call_ensures(glue_channel_read, (size, outcome), r),
    ensures
        outcome matches Err(status) ==> r.status == status.spec_code() && r.actual is None,
        outcome matches Ok(None) ==> r.status == 10 && r.actual == Some((0u32, 0u32)),
        outcome matches Ok(Some(NodeReadStatus::NeedsCapacity(bytes, handles))) ==> {
            &&& bytes > size ==> r.status == 5
            &&& bytes <= size ==> r.status == 6
            &&& r.actual is Some
            &&& (r.actual->0).0 == bytes
            &&& (r.actual->0).1 == handles
        },
        outcome matches Ok(Some(NodeReadStatus::Success(msg))) ==> {
            &&& r.status == 1
            &&& r.actual is Some
            &&& (r.actual->0).0 == msg.data@.len()
            &&& (r.actual->0).1 == msg.handles@.len()
            &&& r.data@ == msg.data@
            &&& r.handle_data@.len() == 8 * msg.handles@.len()
            &&& abi::handles_in(r.handle_data@, 8, msg.handles@.len()) == msg.handles@
        },
        !(outcome matches Ok(Some(NodeReadStatus::Success(_)))) ==> r.data@.len() == 0
            && r.handle_data@.len() == 0,
{
    if let Ok(Some(NodeReadStatus::Success(msg))) = outcome {
        abi::law_handles_round_trip(msg.handles@);
    }
}

/// A message that was read and is written again is the same message.
pub proof fn law_write_gives_back_read(
    size: usize,
    msg: NodeMessage,
    reply: ChannelReadReply,
    count: u32,
    data: Vec<u8>,
    handle_buf: Vec<u8>,
    written: NodeMessage,
)
    requires
        msg.data@.len() <= u32::MAX,
        msg.handles@.len() == count,
        call_ensures(
            glue_channel_read,
            (size, Ok::<Option<NodeReadStatus>, OakStatus>(Some(NodeReadStatus::Success(msg)))),
            reply,
        ),
        data@ == reply.data@,
        handle_buf@ == reply.handle_data@,
        call_ensures(glue_channel_write, (data, &handle_buf, count), written),
    ensures
        written.data@ == msg.data@,
        written.handles@ == msg.handles@,
{
    abi::law_handles_round_trip(msg.handles@);
}

/// A request without another answer is answered with one where it succeeded, and with the
/// number of its error where it did not.
pub proof fn law_status_is_answered(outcome: Result<(), OakStatus>, r: u32)
    requires
        call_ensures(status_of, (outcome,), r),
    ensures
        outcome is Ok ==> r == 1,
        outcome matches Err(status) ==> r == status.spec_code(),
{
}

/// The handles to wait on are read each from the first eight of nine bytes, so what is in the
/// status bytes makes no difference.
pub proof fn law_wait_ignores_statuses(
    a: Vec<u8>,
    b: Vec<u8>,
    count: u32,
    r: Vec<Handle>,
    q: Vec<Handle>,
)
    requires
        a@.len() == 9 * count,
        b@.len() == 9 * count,
        forall|k: int| 0 <= k < a@.len() && k % 9 != 8 ==> #[trigger] a@[k] == b@[k],
        call_ensures(glue_wait_on_channels, (&a, count), r),
        call_ensures(glue_wait_on_channels, (&b, count), q),
    ensures
        r@ == q@,
        r@.len() == count,
{
    assert forall|i: int| 0 <= i < count implies #[trigger] r@[i] == q@[i] by {
        assert forall|j: int| 0 <= j < 8 implies #[trigger] a@[i * 9 + j] == b@[i * 9 + j] by {
            assert((i * 9 + j) % 9 == j);
        }
        assert(a@.subrange(i * 9, i * 9 + 8) =~= b@.subrange(i * 9, i * 9 + 8));
    }
    assert(r@ =~= q@);
}

/// A pseudo-Node is created by the factory that was registered last, with the data that it
/// was registered with, under the Node and the handle that it is created for.
pub proof fn law_registered_factory_is_called<F: Copy>(
    registry: FactoryRegistry<F>,
    factory: F,
    factory_data: usize,
    config_name: &str,
    node_id: NodeId,
    handle: Handle,
    r: FactoryCall<F>,
)
    requires
        registry@ == Some((factory, factory_data)),
        call_ensures(create_and_run_node::<F>, (&registry, config_name, node_id, handle), r),
    ensures
        r.factory == factory,
        r.factory_data == factory_data,
        r.node_id == node_id.0,
        r.handle == handle,
{
}

} // verus!
