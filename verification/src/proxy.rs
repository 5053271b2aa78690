//! The place where the runtime is kept for use on the boundary to foreign code.
use crate::glue::NodeId;
use vstd::prelude::*;

verus! {

/// The key under which a runtime is kept.
pub type RuntimeRef = u64;

/// A runtime as one of its Nodes sees it.
#[derive(PartialEq, Eq, Hash, Clone, Copy, Debug, Structural)]
pub struct RuntimeProxy {
    pub runtime: RuntimeRef,
    pub node_id: NodeId,
}

impl RuntimeProxy {
    /// The same runtime, seen by another Node.
    pub open spec fn at_node(self, node_id: NodeId) -> RuntimeProxy {
        RuntimeProxy { runtime: self.runtime, node_id }
    }

    /// Returns a proxy of the same runtime for another Node.
    pub fn new_for_node(&self, node_id: NodeId) -> (r: RuntimeProxy)
        ensures
            r == self.at_node(node_id),
    {
        RuntimeProxy { runtime: self.runtime, node_id }
    }
}

/// The place for the one runtime that foreign code reaches.
pub struct ProxySlot {
    proxy: Option<RuntimeProxy>,
}

impl View for ProxySlot {
    type V = Option<RuntimeProxy>;

    closed spec fn view(&self) -> Option<RuntimeProxy> {
        self.proxy
    }
}

impl ProxySlot {
    /// Creates an empty place.
    pub fn new() -> (r: ProxySlot)
        ensures
            r@ == None::<RuntimeProxy>,
    {
        ProxySlot { proxy: None }
    }

    /// Returns whether a runtime is there.
    pub fn is_set(&self) -> (r: bool)
        ensures
            r == (self@ is Some),
    {
        self.proxy.is_some()
    }
}

/// Puts the runtime in its place. An earlier one is replaced.
pub fn set_runtime(slot: &mut ProxySlot, proxy: RuntimeProxy)
    ensures
        final(slot)@ == Some(proxy),
{
    slot.proxy = Some(proxy);
}

/// Takes the runtime out of its place.
pub fn clear(slot: &mut ProxySlot)
    ensures
        final(slot)@ == None::<RuntimeProxy>,
{
    slot.proxy = None;
}

/// Recreates a proxy of the runtime that corresponds to the given Node identifier.
pub fn for_node(slot: &ProxySlot, node_id: u64) -> (r: RuntimeProxy)
    requires
        slot@ is Some,
    ensures
        r == (slot@->0).at_node(NodeId(node_id)),
{
    let proxy = slot.proxy.unwrap();
    proxy.new_for_node(NodeId(node_id))
}

/// Which Node a proxy was made for makes no difference to the proxies made from it, and a
/// proxy remade for its own Node is the same proxy.
pub proof fn law_proxy_remade(p: RuntimeProxy, a: NodeId, b: NodeId)
    ensures
        p.at_node(a).at_node(b) == p.at_node(b),
        p.at_node(p.node_id) == p,
{
}

/// A proxy that is remade for a Node is of the same runtime, and of that Node.
pub proof fn law_proxy_is_of_its_node(p: RuntimeProxy, a: NodeId)
    ensures
        p.at_node(a).runtime == p.runtime,
        p.at_node(a).node_id == a,
{
}

/// What foreign code reaches is the runtime that was put in place, seen by the Node that it
/// asks for.
pub proof fn law_runtime_in_place_is_reached(
    slot: ProxySlot,
    proxy: RuntimeProxy,
    node_id: u64,
    r: RuntimeProxy,
)
    requires
        slot@ == Some(proxy),
        call_ensures(for_node, (&slot, node_id), r),
    ensures
        r.runtime == proxy.runtime,
        r.node_id.0 == node_id,
{
}

} // verus!
