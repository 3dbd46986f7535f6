//! The records that routers, the simulator and the provers exchange.
use std::collections::HashMap;
use vstd::prelude::*;

use crate::util::bytes_eq;
use crate::text::{
    bool_str, bytes_list_str, int_str, push_bool, push_bytes_list, push_int, push_str,
};

verus! {

/// A router of the simulated network.
#[derive(Debug)]
pub struct Node {
    pub id: i32,
    pub ip: String,
    pub port: i32,
}

impl Node {
    pub fn new(id: i32, ip: String, port: i32) -> (r: Self)
        ensures
            r.id == id,
            r.ip == ip,
            r.port == port,
    {
        Node { id: id, ip: ip, port: port }
    }

    /// `id: <id>, ip: <ip>, port: <port>`
    pub fn to_string(&self) -> (r: String)
        ensures
            r@ == "id: "@ + int_str(self.id as int) + ", ip: "@ + self.ip@ + ", port: "@ + int_str(
                self.port as int,
            ),
    {
        let mut s = String::new();
        push_str(&mut s, "id: ");
        push_int(&mut s, self.id as i64);
        push_str(&mut s, ", ip: ");
        push_str(&mut s, self.ip.as_str());
        push_str(&mut s, ", port: ");
        push_int(&mut s, self.port as i64);
        s
    }
}

/// One entry of a routing table: from `src` towards `dst`, forward to `next`.
#[derive(Debug, Clone, Copy, PartialEq, Eq, Structural)]
pub struct Route {
    pub id: i32,
    pub src: i32,
    pub dst: i32,
    pub next: i32,
    pub cost: i32,
}

/// The all-zero route.
pub open spec fn default_route() -> Route {
    Route { id: 0, src: 0, dst: 0, next: 0, cost: 0 }
}

impl Default for Route {
    fn default() -> (r: Self)
        ensures
            r == default_route(),
    {
        Route { id: 0, src: 0, dst: 0, next: 0, cost: 0 }
    }
}

impl Route {
    pub fn new(id: i32, src: i32, dst: i32, next: i32, cost: i32) -> (r: Self)
        ensures
            r == (Route { id, src, dst, next, cost }),
    {
        Route { id: id, src: src, dst: dst, next: next, cost: cost }
    }

    /// `id: <id>, src: <src>, dst: <dst>, next: <next>, cost: <cost>`
    pub fn to_string(&self) -> (r: String)
        ensures
            r@ == "id: "@ + int_str(self.id as int) + ", src: "@ + int_str(self.src as int)
                + ", dst: "@ + int_str(self.dst as int) + ", next: "@ + int_str(self.next as int)
                + ", cost: "@ + int_str(self.cost as int),
    {
        let mut s = String::new();
        push_str(&mut s, "id: ");
        push_int(&mut s, self.id as i64);
        push_str(&mut s, ", src: ");
        push_int(&mut s, self.src as i64);
        push_str(&mut s, ", dst: ");
        push_int(&mut s, self.dst as i64);
        push_str(&mut s, ", next: ");
        push_int(&mut s, self.next as i64);
        push_str(&mut s, ", cost: ");
        push_int(&mut s, self.cost as i64);
        s
    }
}

/// A flow of packets from `src` to `dst`.
#[derive(Debug, Clone, Copy, PartialEq, Eq, Structural)]
pub struct Flow {
    pub id: i32,
    pub src: i32,
    pub dst: i32,
    pub is_done: bool,
}

impl Flow {
    pub fn new(id: i32, src: i32, dst: i32, is_done: bool) -> (r: Self)
        ensures
            r == (Flow { id, src, dst, is_done }),
    {
        Flow { id: id, src: src, dst: dst, is_done: is_done }
    }

    /// `id: <id>, src: <src>, dst: <dst>, is_done: <true|false>`
    pub fn to_string(&self) -> (r: String)
        ensures
            r@ == "id: "@ + int_str(self.id as int) + ", src: "@ + int_str(self.src as int)
                + ", dst: "@ + int_str(self.dst as int) + ", is_done: "@ + bool_str(self.is_done),
    {
        let mut s = String::new();
        push_str(&mut s, "id: ");
        push_int(&mut s, self.id as i64);
        push_str(&mut s, ", src: ");
        push_int(&mut s, self.src as i64);
        push_str(&mut s, ", dst: ");
        push_int(&mut s, self.dst as i64);
        push_str(&mut s, ", is_done: ");
        push_bool(&mut s, self.is_done);
        s
    }
}

/// A telemetry record written by a router for one hop of a flow.
#[derive(Debug, Clone, Copy, PartialEq, Eq, Structural)]
pub struct Log {
    pub id: i32,
    pub flow_id: i32,
    pub src: i32,
    pub dst: i32,
    pub pred: i32,
    pub packet_size: i32,
    pub hop_cnt: i32,
}

impl Log {
    pub fn new(
        id: i32,
        flow_id: i32,
        src: i32,
        dst: i32,
        pred: i32,
        packet_size: i32,
        hop_cnt: i32,
    ) -> (r: Self)
        ensures
            r == (Log { id, flow_id, src, dst, pred, packet_size, hop_cnt }),
    {
        Log {
            id: id,
            flow_id: flow_id,
            src: src,
            dst: dst,
            pred: pred,
            packet_size: packet_size,
            hop_cnt: hop_cnt,
        }
    }

    /// The seven fields in declaration order, separated by `|`.
    pub fn to_string(&self) -> (r: String)
        ensures
            r@ == int_str(self.id as int) + "|"@ + int_str(self.flow_id as int) + "|"@ + int_str(
                self.src as int,
            ) + "|"@ + int_str(self.dst as int) + "|"@ + int_str(self.pred as int) + "|"@
                + int_str(self.packet_size as int) + "|"@ + int_str(self.hop_cnt as int),
    {
        let mut s = String::new();
        push_int(&mut s, self.id as i64);
        push_str(&mut s, "|");
        push_int(&mut s, self.flow_id as i64);
        push_str(&mut s, "|");
        push_int(&mut s, self.src as i64);
        push_str(&mut s, "|");
        push_int(&mut s, self.dst as i64);
        push_str(&mut s, "|");
        push_int(&mut s, self.pred as i64);
        push_str(&mut s, "|");
        push_int(&mut s, self.packet_size as i64);
        push_str(&mut s, "|");
        push_int(&mut s, self.hop_cnt as i64);
        s
    }

    /// Two logs describe the same hop when every field but the row id agrees.
    pub open spec fn same_hop(self, other: Log) -> bool {
        &&& self.flow_id == other.flow_id
        &&& self.src == other.src
        &&& self.dst == other.dst
        &&& self.pred == other.pred
        &&& self.packet_size == other.packet_size
        &&& self.hop_cnt == other.hop_cnt
    }

    pub fn equals(&self, log: &Log) -> (r: bool)
        ensures
            r == self.same_hop(*log),
            r == (Log { id: log.id, ..*self } == *log),
    {
        self.flow_id == log.flow_id && self.src == log.src && self.dst == log.dst && self.pred
            == log.pred && self.packet_size == log.packet_size && self.hop_cnt == log.hop_cnt
    }
}

/// Two logs describe the same hop exactly when they are equal once the row
/// id is set aside: every other field, the packet size among them, agrees.
pub proof fn lemma_same_hop_ignores_only_id(a: Log, b: Log)
    ensures
        a.same_hop(b) == (Log { id: b.id, ..a } == b),
        a.same_hop(b) ==> a.packet_size == b.packet_size && a.hop_cnt == b.hop_cnt && a.pred
            == b.pred && a.src == b.src && a.dst == b.dst && a.flow_id == b.flow_id,
{
}

/// An aggregated record per user: the running hash chain over all of its logs.
#[derive(Debug)]
pub struct CLog {
    pub id: i32,
    pub user_id: i32,
    pub hash_chain: Vec<u8>,
}

/// The contents of a `CLog`: id, user id and the bytes of its hash chain.
pub type CLogView = (i32, i32, Seq<u8>);

impl View for CLog {
    type V = CLogView;

    open spec fn view(&self) -> CLogView {
        (self.id, self.user_id, self.hash_chain@)
    }
}

impl Clone for CLog {
    fn clone(&self) -> (r: Self)
        ensures
            r@ == self@,
    {
        CLog { id: self.id, user_id: self.user_id, hash_chain: self.hash_chain.clone() }
    }
}

impl CLog {
    pub fn new(id: i32, user_id: i32, hash_chain: Vec<u8>) -> (r: Self)
        ensures
            r.id == id,
            r.user_id == user_id,
            r.hash_chain == hash_chain,
    {
        CLog { id, user_id, hash_chain }
    }

    /// Two records agree when user and hash chain agree; the row id is not compared.
    pub fn equals(&self, clog: &CLog) -> (r: bool)
        ensures
            r == (self.user_id == clog.user_id && self.hash_chain@ == clog.hash_chain@),
    {
        self.user_id == clog.user_id && bytes_eq(self.hash_chain.as_slice(), clog.hash_chain.as_slice())
    }

    /// `id: <id>, user_id: <user_id>, hash_chain: [b0, b1, ...]`
    pub fn to_string(&self) -> (r: String)
        ensures
            r@ == "id: "@ + int_str(self.id as int) + ", user_id: "@ + int_str(self.user_id as int)
                + ", hash_chain: "@ + bytes_list_str(self.hash_chain@),
    {
        let mut s = String::new();
        push_str(&mut s, "id: ");
        push_int(&mut s, self.id as i64);
        push_str(&mut s, ", user_id: ");
        push_int(&mut s, self.user_id as i64);
        push_str(&mut s, ", hash_chain: ");
        push_bytes_list(&mut s, &self.hash_chain);
        s
    }
}

/// Inputs of the route proof: the endpoints and the routing table.
pub struct PrivateInput {
    pub src_ip: String,
    pub dst_ip: String,
    pub routes: Vec<Route>,
    pub all_routes: Vec<Route>,
}

/// Public outputs of the route proof.
pub struct Journal {
    pub route_proof: Vec<u8>,
    pub route_root: [u8; 32],
    pub route_indices: Vec<usize>,
    pub route_hashes: Vec<[u8; 32]>,
    pub all_route_len: usize,
    pub latency: i32,
}

/// Inputs of one aggregation round.
pub struct AggregationPrivateInput {
    /// All logs of each router, checked against `hashes`.
    pub logs: Vec<Vec<Log>>,
    /// The committed hash of each router's log table.
    pub hashes: Vec<[u8; 32]>,
    /// Logs written since the previous round.
    pub new_logs: Vec<Vec<Log>>,
    pub update_clogs: HashMap<i32, CLog>,
    pub insert_clogs: HashMap<i32, CLog>,
    pub old_clogs: HashMap<i32, CLog>,
    pub new_clogs: HashMap<i32, CLog>,
    /// The serialized Merkle tree of the previous round.
    pub tree: Vec<u8>,
}

/// Public outputs of one aggregation round.
pub struct AggregationJournal {
    pub success: bool,
    pub tree: Vec<u8>,
    pub root: [u8; 32],
    pub message: String,
}

/// Inputs of a query over the aggregated records.
pub struct QueryPrivateInput {
    pub clogs: Vec<CLog>,
    pub cur_root: [u8; 32],
    pub user_id: i32,
}

/// Public outputs of a query.
pub struct QueryJournal {
    pub success: bool,
    pub message: String,
}

} // verus!
