//! What a run is configured with: the targets to connect to and the number
//! of probes to send over each connection.

use vstd::prelude::*;

verus! {

/// An IP address, written as its groups from left to right.
#[derive(Clone, Copy, Debug, PartialEq, Eq, Structural)]
pub enum Address {
    V4(u8, u8, u8, u8),
    V6(u16, u16, u16, u16, u16, u16, u16, u16),
}

/// One endpoint that the harness connects to and measures.
#[derive(Clone, Copy, Debug, PartialEq, Eq, Structural)]
pub struct Target {
    pub address: Address,
    pub port: u16,
}

/// The target at `port` on the local machine, 127.0.0.1.
pub open spec fn loopback(port: u16) -> Target {
    Target { address: Address::V4(127, 0, 0, 1), port }
}

/// One loopback target for each port, in the order of the ports.
pub open spec fn port_targets(ports: Seq<u16>) -> Seq<Target> {
    Seq::new(ports.len(), |i: int| loopback(ports[i]))
}

/// The targets of all groups of ports: group after group, and within a group
/// port after port.
pub open spec fn group_targets(groups: Seq<Vec<u16>>) -> Seq<Target>
    decreases groups.len(),
{
    if groups.len() == 0 {
        Seq::empty()
    } else {
        group_targets(groups.drop_last()) + port_targets(groups.last()@)
    }
}

impl Target {
    /// The target at `port` on the local machine.
    pub fn loopback(port: u16) -> (t: Target)
        ensures
            t == loopback(port),
    {
        Target { address: Address::V4(127, 0, 0, 1), port }
    }
}

/// The configuration of a run. An empty list of servers and a message count
/// of zero are both valid: such a run has no work to do.
#[derive(Clone, Debug, PartialEq, Eq)]
pub struct Config {
    pub servers: Vec<Target>,
    pub message_per_connection: u16,
}

impl Config {
    /// The configuration that measures every port of every application on the
    /// local machine, sending `messages_per_connection` probes to each.
    pub fn new(apps: Vec<Vec<u16>>, messages_per_connection: u16) -> (config: Config)
        ensures
            config.servers@ == group_targets(apps@),
            config.message_per_connection == messages_per_connection,
    {
        let mut servers: Vec<Target> = Vec::new();
        let mut a: usize = 0;
        while a < apps.len()
            invariant
                a <= apps.len(),
                servers@ == group_targets(apps@.subrange(0, a as int)),
            decreases apps.len() - a,
        {
            let ports = &apps[a];
            let ghost before = servers@;
            let mut p: usize = 0;
            while p < ports.len()
                invariant
                    p <= ports.len(),
                    servers@ == before + port_targets(ports@.subrange(0, p as int)),
                decreases ports.len() - p,
            {
                servers.push(Target::loopback(ports[p]));
                proof {
                    assert(servers@ =~= before + port_targets(ports@.subrange(0, p + 1)));
                }
                p = p + 1;
            }
            proof {
                assert(ports@.subrange(0, ports.len() as int) =~= ports@);
                let upto = apps@.subrange(0, a + 1);
                assert(upto.drop_last() =~= apps@.subrange(0, a as int));
                assert(upto.last() == apps@[a as int]);
            }
            a = a + 1;
        }
        proof {
            assert(apps@.subrange(0, apps.len() as int) =~= apps@);
        }
        Config { servers, message_per_connection: messages_per_connection }
    }

    /// The number of probes that the run sets out to send: the messages per
    /// connection times the number of servers, whatever becomes of them.
    pub fn total_messages(&self) -> (n: u128)
        ensures
            n == self.message_per_connection * self.servers@.len(),
    {
        let per: u128 = self.message_per_connection as u128;
        let targets: u128 = self.servers.len() as u128;
        proof {
            assert(per * targets <= 0xFFFF * 0xFFFF_FFFF_FFFF_FFFF) by (nonlinear_arith)
                requires
                    per <= 0xFFFF,
                    targets <= 0xFFFF_FFFF_FFFF_FFFF,
            ;
        }
        per * targets
    }
}

} // verus!
