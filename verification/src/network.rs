//! How nodes of the cluster reach each other.

use std::collections::HashMap;

use vstd::prelude::*;
use vstd::string::*;

use crate::text;
use crate::text::decimal;

verus! {

broadcast use vstd::std_specs::hash::group_hash_axioms;

/// First port of the addresses that nodes have by default.
pub const BASE_PORT: u64 = 8000;

/// A request between nodes.
#[derive(Debug, Clone, Copy, PartialEq, Eq, Structural)]
pub enum Rpc {
    AppendEntries,
    Vote,
    InstallSnapshot,
}

impl Rpc {
    /// The last part of the request's path.
    pub open spec fn label(self) -> Seq<char> {
        match self {
            Rpc::AppendEntries => "append_entries"@,
            Rpc::Vote => "vote"@,
            Rpc::InstallSnapshot => "install_snapshot"@,
        }
    }

    /// The last part of the request's path.
    pub fn path(&self) -> (r: &'static str)
        ensures
            r@ == self.label(),
    {
        match self {
            Rpc::AppendEntries => "append_entries",
            Rpc::Vote => "vote",
            Rpc::InstallSnapshot => "install_snapshot",
        }
    }
}

/// The way to a peer.
#[derive(Debug)]
pub struct RaftNetworkImpl {
    addr: String,
}

impl View for RaftNetworkImpl {
    type V = Seq<char>;

    closed spec fn view(&self) -> Seq<char> {
        self.addr@
    }
}

impl RaftNetworkImpl {
    /// The way to a peer at an address.
    pub fn new(addr: String) -> (r: RaftNetworkImpl)
        ensures
            r@ == addr@,
    {
        RaftNetworkImpl { addr }
    }

    /// Where the peer takes a request.
    pub fn rpc_url(&self, rpc: Rpc) -> (r: String)
        ensures
            r@ == "http://"@ + self@ + "/internal/raft/"@ + rpc.label(),
    {
        let mut s: String = "http://".to_owned();
        s.append(self.addr.as_str());
        s.append("/internal/raft/");
        s.append(rpc.path());
        s
    }

    /// Milliseconds to wait before the next request to a peer that could not
    /// be reached, after a number of failures.
    pub fn backoff(failures: u32) -> (r: u64)
        ensures
            r == delay(500, 5000, failures as nat),
    {
        backed_off(500, 5000, failures)
    }
}

/// A delay that doubles up to three times and is never longer than a limit.
pub open spec fn delay(limit: nat, first: nat, failures: nat) -> nat {
    let doubled = if failures == 0 {
        first
    } else if failures == 1 {
        2 * first
    } else if failures == 2 {
        4 * first
    } else {
        8 * first
    };
    if doubled < limit {
        doubled
    } else {
        limit
    }
}

/// A delay that doubles up to three times and is never longer than a limit.
pub fn backed_off(limit: u64, first: u64, failures: u32) -> (r: u64)
    requires
        8 * first <= u64::MAX,
    ensures
        r == delay(limit as nat, first as nat, failures as nat),
{
    let factor: u64 = match failures {
        0 => 1,
        1 => 2,
        2 => 4,
        _ => 8,
    };
    assert(first * factor <= 8 * first) by (nonlinear_arith)
        requires
            factor <= 8,
    ;
    let doubled: u64 = first * factor;
    if doubled < limit {
        doubled
    } else {
        limit
    }
}

/// Where each peer is.
pub struct RaftNetworkFactoryImpl {
    peers: HashMap<u64, String>,
}

impl View for RaftNetworkFactoryImpl {
    type V = Map<u64, Seq<char>>;

    closed spec fn view(&self) -> Map<u64, Seq<char>> {
        self.peers@.map_values(|s: String| s@)
    }
}

/// The address of a node: the one that is known, or one on this host.
pub open spec fn address_of(peers: Map<u64, Seq<char>>, target: u64) -> Seq<char> {
    if peers.contains_key(target) {
        peers[target]
    } else {
        "127.0.0.1:"@ + text::decimal_text((8000 + target) as nat)
    }
}

impl RaftNetworkFactoryImpl {
    /// Peers at these addresses.
    pub fn new(peers: HashMap<u64, String>) -> (r: RaftNetworkFactoryImpl)
        ensures
            r@ == peers@.map_values(|s: String| s@),
    {
        RaftNetworkFactoryImpl { peers }
    }

    /// The way to a node.
    pub fn new_client(&self, target: u64) -> (r: RaftNetworkImpl)
        requires
            8000 + target <= u64::MAX,
        ensures
            r@ == address_of(self@, target),
    {
        match self.peers.get(&target) {
            Some(a) => RaftNetworkImpl::new(a.clone()),
            None => {
                let mut s: String = "127.0.0.1:".to_owned();
                s.append(decimal(BASE_PORT + target).as_str());
                RaftNetworkImpl::new(s)
            },
        }
    }
}

/// A request that was answered with an error status.
#[derive(Debug)]
pub struct RpcHttpError {
    pub status: u16,
    pub body: String,
}

impl RpcHttpError {
    /// The message that describes the error.
    pub fn message(&self) -> (r: String)
        ensures
            r@ == "HTTP "@ + text::decimal_text(self.status as nat) + ": "@ + self.body@,
    {
        let mut s: String = "HTTP ".to_owned();
        s.append(decimal(self.status as u64).as_str());
        s.append(": ");
        s.append(self.body.as_str());
        s
    }
}

/// What an answer with a status and a body comes to: the body where the status
/// reports success, and else an error.
pub fn answer(status: u16, body: String) -> (r: Result<String, RpcHttpError>)
    ensures
        200 <= status < 300 ==> (r matches Ok(b) && b@ == body@),
        !(200 <= status < 300) ==> (r matches Err(e) && e.status == status && e.body@ == body@),
{
    if 200 <= status && status < 300 {
        Ok(body)
    } else {
        Err(RpcHttpError { status, body })
    }
}

/// The delay doubles with every failure up to the third, within the limit; more
/// failures wait no longer.
pub proof fn delays_double_up_to_the_limit(limit: nat, first: nat, failures: nat)
    ensures
        delay(limit, first, failures) <= limit,
        first <= limit ==> delay(limit, first, 0) == first,
        failures < 3 ==> delay(limit, first, failures + 1) == (if 2 * delay(limit, first, failures) < limit {
            2 * delay(limit, first, failures)
        } else {
            limit
        }),
        failures >= 3 ==> delay(limit, first, failures) == delay(limit, first, 3),
{
}

/// A peer that is known is reached at its own address, any other one on this
/// machine at the port 8000 and its number.
pub proof fn peers_are_reached_where_they_are(peers: Map<u64, Seq<char>>, target: u64, address: Seq<char>)
    ensures
        address_of(peers.insert(target, address), target) == address,
        !peers.contains_key(target) ==> address_of(peers, target) == "127.0.0.1:"@ + text::decimal_text(
            (8000 + target) as nat,
        ),
{
}

} // verus!
