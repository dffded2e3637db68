use vstd::prelude::*;
use vstd::string::StringExecFns;
use crate::encodings::dec_str;
use crate::encodings::u64_to_dec;

verus! {

/// A version-4 IP address, held as its four octets.
#[derive(Clone, Copy, Debug, PartialEq, Eq, Structural, Hash)]
pub struct IpAddr {
    pub a: u8,
    pub b: u8,
    pub c: u8,
    pub d: u8,
}

/// The dotted-decimal rendering of an IP address.
pub open spec fn ip_str(ip: IpAddr) -> Seq<char> {
    dec_str(ip.a as nat) + seq!['.'] + dec_str(ip.b as nat) + seq!['.'] + dec_str(ip.c as nat)
        + seq!['.'] + dec_str(ip.d as nat)
}

impl IpAddr {
    pub fn new(a: u8, b: u8, c: u8, d: u8) -> (r: IpAddr)
        ensures
            r == (IpAddr { a, b, c, d }),
    {
        IpAddr { a, b, c, d }
    }

    /// Renders the address in dotted decimal, as logs and diagnostics show it.
    pub fn to_string(&self) -> (r: String)
        ensures
            r@ == ip_str(*self),
    {
        proof {
            reveal_strlit(".");
        }
        let mut s = u64_to_dec(self.a as u64);
        s.append(".");
        let sb = u64_to_dec(self.b as u64);
        s.append(sb.as_str());
        s.append(".");
        let sc = u64_to_dec(self.c as u64);
        s.append(sc.as_str());
        s.append(".");
        let sd = u64_to_dec(self.d as u64);
        s.append(sd.as_str());
        proof {
            assert(".".view() =~= seq!['.']);
            assert(s@ =~= ip_str(*self));
        }
        s
    }
}

/// The `(IP, non-empty list of ports)` identity of a reachable node.
#[derive(Debug)]
pub struct NodeAddr {
    pub ip_addr: IpAddr,
    pub ports: Vec<u16>,
}

impl Clone for NodeAddr {
    fn clone(&self) -> (r: Self)
        ensures
            r@ == self@,
    {
        NodeAddr { ip_addr: self.ip_addr, ports: vstd::slice::slice_to_vec(self.ports.as_slice()) }
    }
}

/// The mathematical value of a `NodeAddr`.
pub ghost struct NodeAddrV {
    pub ip: IpAddr,
    pub ports: Seq<u16>,
}

impl View for NodeAddr {
    type V = NodeAddrV;

    open spec fn view(&self) -> NodeAddrV {
        NodeAddrV { ip: self.ip_addr, ports: self.ports@ }
    }
}

/// The comma-separated decimal rendering of a port list.
pub open spec fn ports_str(ports: Seq<u16>) -> Seq<char>
    decreases ports.len(),
{
    if ports.len() == 0 {
        Seq::empty()
    } else if ports.len() == 1 {
        dec_str(ports[0] as nat)
    } else {
        ports_str(ports.drop_last()) + seq![','] + dec_str(ports.last() as nat)
    }
}

/// The `IP:port1,port2,...` rendering of a node address.
pub open spec fn node_addr_str(v: NodeAddrV) -> Seq<char> {
    ip_str(v.ip) + seq![':'] + ports_str(v.ports)
}

/// Compares two port lists for equality of contents.
pub fn ports_equal(a: &Vec<u16>, b: &Vec<u16>) -> (r: bool)
    ensures
        r == (a@ == b@),
{
    if a.len() != b.len() {
        assert(a@ != b@);
        return false;
    }
    let n = a.len();
    let mut i: usize = 0;
    while i < n
        invariant
            n == a.len() == b.len(),
            0 <= i <= n,
            forall|j: int| 0 <= j < i ==> a@[j] == b@[j],
        decreases n - i,
    {
        if a[i] != b[i] {
            return false;
        }
        i = i + 1;
    }
    proof {
        assert(a@ =~= b@);
    }
    true
}

impl NodeAddr {
    pub fn new(ip_addr: &IpAddr, ports: &Vec<u16>) -> (r: NodeAddr)
        requires
            ports@.len() >= 1,
        ensures
            r@ == (NodeAddrV { ip: *ip_addr, ports: ports@ }),
    {
        NodeAddr { ip_addr: *ip_addr, ports: vstd::slice::slice_to_vec(ports.as_slice()) }
    }

    /// At least one port: the invariant every constructed address satisfies.
    pub open spec fn wf(&self) -> bool {
        self@.ports.len() >= 1
    }

    pub fn ip_addr(&self) -> (r: IpAddr)
        ensures
            r == self@.ip,
    {
        self.ip_addr
    }

    pub fn ports(&self) -> (r: Vec<u16>)
        ensures
            r@ == self@.ports,
    {
        vstd::slice::slice_to_vec(self.ports.as_slice())
    }

    /// Renders the address as `IP:port1,port2,...`.
    pub fn to_string(&self) -> (r: String)
        ensures
            r@ == node_addr_str(self@),
    {
        proof {
            reveal_strlit(":");
            reveal_strlit(",");
        }
        let mut s = self.ip_addr.to_string();
        s.append(":");
        proof {
            assert(":".view() =~= seq![':']);
            assert(",".view() =~= seq![',']);
            assert(s@ =~= ip_str(self@.ip) + seq![':'] + ports_str(self@.ports.take(0)));
        }
        let n = self.ports.len();
        let mut i: usize = 0;
        while i < n
            invariant
                n == self.ports.len(),
                0 <= i <= n,
                s@ == ip_str(self@.ip) + seq![':'] + ports_str(self@.ports.take(i as int)),
            decreases n - i,
        {
            proof {
                reveal_strlit(",");
                assert(",".view() =~= seq![',']);
            }
            if i > 0 {
                s.append(",");
            }
            let p = u64_to_dec(self.ports[i] as u64);
            s.append(p.as_str());
            proof {
                let taken = self@.ports.take(i + 1 as int);
                assert(taken.drop_last() =~= self@.ports.take(i as int));
                assert(taken.last() == self@.ports[i as int]);
                if i == 0 {
                    assert(taken.len() == 1);
                    assert(ports_str(taken) == dec_str(taken[0] as nat));
                    assert(taken[0] == self@.ports[0]);
                } else {
                    assert(taken.len() >= 2);
                    assert(ports_str(taken) == ports_str(self@.ports.take(i as int)) + seq![',']
                        + dec_str(self@.ports[i as int] as nat));
                }
                assert(s@ =~= ip_str(self@.ip) + seq![':'] + ports_str(taken));
            }
            i = i + 1;
        }
        proof {
            assert(self@.ports.take(n as int) =~= self@.ports);
        }
        s
    }
}

impl PartialEq for NodeAddr {
    fn eq(&self, other: &Self) -> (r: bool) {
        self.ip_addr == other.ip_addr && ports_equal(&self.ports, &other.ports)
    }
}

impl vstd::std_specs::cmp::PartialEqSpecImpl for NodeAddr {
    open spec fn obeys_eq_spec() -> bool {
        true
    }

    open spec fn eq_spec(&self, other: &Self) -> bool {
        self@ == other@
    }
}

} // verus!
