//! Event log for visualization tools (SimBlock-style trace records).
use crate::types::NodeId;
use vstd::prelude::*;

verus! {

/// One record of the trace; each becomes a `{ "kind", "content" }` JSON object.
#[derive(Debug, Clone, Copy, PartialEq, Eq, Structural)]
pub enum LogEvent {
    /// `add-node`: a node exists in a region.
    AddNode { timestamp: u64, node: NodeId, region: usize },
    /// `add-link`: an undirected P2P link.
    AddLink { timestamp: u64, begin: NodeId, end: NodeId },
    /// `add-block`: a node adopted a block as its tip.
    AddBlock { timestamp: u64, node: NodeId, block_id: u64 },
    /// `flow-block`: a block payload went from `begin` to `end`.
    FlowBlock {
        transmission_timestamp: u64,
        reception_timestamp: u64,
        begin: NodeId,
        end: NodeId,
        block_id: u64,
    },
    /// `simulation-end`.
    SimulationEnd { timestamp: u64 },
}

impl LogEvent {
    /// The `kind` string of the record.
    pub fn kind(&self) -> (k: &'static str)
        ensures
            k@ == (match *self {
                LogEvent::AddNode { .. } => "add-node"@,
                LogEvent::AddLink { .. } => "add-link"@,
                LogEvent::AddBlock { .. } => "add-block"@,
                LogEvent::FlowBlock { .. } => "flow-block"@,
                LogEvent::SimulationEnd { .. } => "simulation-end"@,
            }),
    {
        match self {
            LogEvent::AddNode { .. } => "add-node",
            LogEvent::AddLink { .. } => "add-link",
            LogEvent::AddBlock { .. } => "add-block",
            LogEvent::FlowBlock { .. } => "flow-block",
            LogEvent::SimulationEnd { .. } => "simulation-end",
        }
    }
}

/// The trace, in the order its records were produced.
pub struct EventLog {
    pub events: Vec<LogEvent>,
}

impl EventLog {
    pub fn new() -> (l: EventLog)
        ensures
            l.events@ == Seq::<LogEvent>::empty(),
    {
        EventLog { events: Vec::new() }
    }

    pub fn push(&mut self, v: LogEvent)
        ensures
            final(self).events@ == old(self).events@.push(v),
    {
        self.events.push(v);
    }

    /// Number of records.
    pub fn len(&self) -> (n: usize)
        ensures
            n == self.events@.len(),
    {
        self.events.len()
    }
}

pub fn ev_add_node(ts: u64, node: NodeId, region: usize) -> (e: LogEvent)
    ensures
        e == (LogEvent::AddNode { timestamp: ts, node, region }),
{
    LogEvent::AddNode { timestamp: ts, node, region }
}

pub fn ev_add_link(ts: u64, begin: NodeId, end: NodeId) -> (e: LogEvent)
    ensures
        e == (LogEvent::AddLink { timestamp: ts, begin, end }),
{
    LogEvent::AddLink { timestamp: ts, begin, end }
}

pub fn ev_add_block(ts: u64, node: NodeId, block_id: u64) -> (e: LogEvent)
    ensures
        e == (LogEvent::AddBlock { timestamp: ts, node, block_id }),
{
    LogEvent::AddBlock { timestamp: ts, node, block_id }
}

pub fn ev_flow_block(ts_send: u64, ts_recv: u64, begin: NodeId, end: NodeId, block_id: u64) -> (e:
    LogEvent)
    ensures
        e == (LogEvent::FlowBlock {
            transmission_timestamp: ts_send,
            reception_timestamp: ts_recv,
            begin,
            end,
            block_id,
        }),
{
    LogEvent::FlowBlock {
        transmission_timestamp: ts_send,
        reception_timestamp: ts_recv,
        begin,
        end,
        block_id,
    }
}

pub fn ev_simulation_end(ts: u64) -> (e: LogEvent)
    ensures
        e == (LogEvent::SimulationEnd { timestamp: ts }),
{
    LogEvent::SimulationEnd { timestamp: ts }
}

} // verus!
