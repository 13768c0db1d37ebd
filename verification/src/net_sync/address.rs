//! Where a node that was found is dialed.
use vstd::prelude::*;
use vstd::string::*;

use crate::text::{chars_of, text_of};
use crate::util::decimal::{digits, push_digits};

verus! {

/// How well an address suits a local network.
pub open spec fn lan_rank(a: u8, b: u8) -> int {
    if a == 192 && b == 168 {
        3
    } else if a == 10 {
        2
    } else if a == 172 && 16 <= b <= 31 {
        1
    } else {
        0
    }
}

/// How well an address suits a local network.
fn rank(ip: &[u8; 4]) -> (r: u8)
    ensures
        r == lan_rank(ip@[0], ip@[1]),
{
    if ip[0] == 192 && ip[1] == 168 {
        3
    } else if ip[0] == 10 {
        2
    } else if ip[0] == 172 && 16 <= ip[1] && ip[1] <= 31 {
        1
    } else {
        0
    }
}

/// Whether an address is that of the device itself.
pub open spec fn is_loopback(ip: Seq<u8>) -> bool {
    ip[0] == 127
}

/// Where the best address stands: one that does not lead back, with no better one anywhere
/// and none as good behind it.
pub open spec fn is_best(ips: Seq<[u8; 4]>, i: int) -> bool {
    &&& 0 <= i < ips.len()
    &&& !is_loopback(ips[i]@)
    &&& forall|k: int|
        0 <= k < ips.len() && !is_loopback((#[trigger] ips[k])@) ==> lan_rank(ips[k]@[0], ips[k]@[1]) <= lan_rank(
            ips[i]@[0],
            ips[i]@[1],
        )
    &&& forall|k: int|
        i < k < ips.len() && !is_loopback((#[trigger] ips[k])@) ==> lan_rank(ips[k]@[0], ips[k]@[1]) < lan_rank(
            ips[i]@[0],
            ips[i]@[1],
        )
}

/// The address in words.
pub open spec fn dotted(ip: Seq<u8>) -> Seq<char> {
    digits(ip[0] as nat, 10) + "."@ + digits(ip[1] as nat, 10) + "."@ + digits(ip[2] as nat, 10) + "."@ + digits(
        ip[3] as nat,
        10,
    )
}

/// The address in words.
pub fn dotted_text(ip: &[u8; 4]) -> (s: String)
    ensures
        s@ == dotted(ip@),
{
    let mut s = String::new();
    push_digits(&mut s, ip[0] as u64, 10);
    s.append(".");
    push_digits(&mut s, ip[1] as u64, 10);
    s.append(".");
    push_digits(&mut s, ip[2] as u64, 10);
    s.append(".");
    push_digits(&mut s, ip[3] as u64, 10);
    proof {
        assert(s@ =~= dotted(ip@));
    }
    s
}

/// An address with a port.
pub open spec fn endpoint(host: Seq<char>, port: u16) -> Seq<char> {
    host + ":"@ + digits(port as nat, 10)
}

/// An address with a port.
pub fn endpoint_text(host: &str, port: u16) -> (s: String)
    ensures
        s@ == endpoint(host@, port),
{
    let mut s = host.to_owned();
    s.append(":");
    push_digits(&mut s, port as u64, 10);
    s
}

/// Where to dial a node: the address among its addresses that suits a local network best;
/// nowhere if all of them lead back to this device.
pub fn dial_address(ips: &Vec<[u8; 4]>, port: u16) -> (r: Option<String>)
    ensures
        match r {
            Some(s) => exists|i: int| #[trigger] is_best(ips@, i) && s@ == endpoint(dotted(ips@[i]@), port),
            None => forall|i: int| 0 <= i < ips@.len() ==> is_loopback((#[trigger] ips@[i])@),
        },
{
    let mut best: Option<usize> = None;
    let mut top: u8 = 0;
    let mut i: usize = 0;
    while i < ips.len()
        invariant
            i <= ips@.len(),
            match best {
                Some(b) => {
                    &&& b < i
                    &&& top == lan_rank(ips@[b as int]@[0], ips@[b as int]@[1])
                    &&& is_best(ips@.take(i as int), b as int)
                },
                None => forall|k: int| 0 <= k < i ==> is_loopback((#[trigger] ips@[k])@),
            },
        decreases ips@.len() - i,
    {
        let ghost t = ips@.take(i + 1);
        if ips[i][0] != 127 {
            let r = rank(&ips[i]);
            let better: bool = match best {
                Some(_) => r >= top,
                None => true,
            };
            proof {
                assert forall|k: int| 0 <= k < i && !is_loopback((#[trigger] t[k])@) && better implies lan_rank(
                    t[k]@[0],
                    t[k]@[1],
                ) <= r by {
                    if let Some(b) = best {
                        assert(ips@.take(i as int)[k] == t[k]);
                    } else {
                        assert(is_loopback(ips@[k]@));
                    }
                }
            }
            if better {
                best = Some(i);
                top = r;
                proof {
                    assert(is_best(t, i as int));
                }
            } else {
                proof {
                    let b = best->Some_0;
                    assert(t[b as int] == ips@.take(i as int)[b as int]);
                    assert forall|k: int| 0 <= k < t.len() && !is_loopback((#[trigger] t[k])@) implies lan_rank(
                        t[k]@[0],
                        t[k]@[1],
                    ) <= top && (k > b ==> lan_rank(t[k]@[0], t[k]@[1]) < top) by {
                        if k < i {
                            assert(ips@.take(i as int)[k] == t[k]);
                        }
                    }
                    assert(is_best(t, b as int));
                }
            }
        } else {
            proof {
                if let Some(b) = best {
                    assert(t[b as int] == ips@.take(i as int)[b as int]);
                    assert forall|k: int| 0 <= k < t.len() && !is_loopback((#[trigger] t[k])@) implies lan_rank(
                        t[k]@[0],
                        t[k]@[1],
                    ) <= top && (k > b ==> lan_rank(t[k]@[0], t[k]@[1]) < top) by {
                        if k < i {
                            assert(ips@.take(i as int)[k] == t[k]);
                        }
                    }
                    assert(is_best(t, b as int));
                }
            }
        }
        i = i + 1;
    }
    proof {
        assert(ips@.take(i as int) =~= ips@);
    }
    match best {
        Some(b) => {
            let host = dotted_text(&ips[b]);
            Some(endpoint_text(host.as_str(), port))
        },
        None => None,
    }
}

/// The name of a node: what stands before the first dot of its full name.
pub open spec fn first_label(name: Seq<char>) -> Seq<char>
    decreases name.len(),
{
    if name.len() == 0 || name[0] == '.' {
        Seq::empty()
    } else {
        seq![name[0]] + first_label(name.drop_first())
    }
}

/// The name of a node.
pub fn node_name(full: &str) -> (s: String)
    ensures
        s@ == first_label(full@),
{
    let v = chars_of(full);
    let mut i: usize = 0;
    proof {
        assert(v@.skip(0) =~= v@);
        assert(v@.take(0) + first_label(v@) =~= first_label(v@));
    }
    while i < v.len() && v[i] != '.'
        invariant
            i <= v@.len(),
            v@ == full@,
            v@.take(i as int) + first_label(v@.skip(i as int)) == first_label(v@),
        decreases v@.len() - i,
    {
        proof {
            let rest = v@.skip(i as int);
            assert(rest.drop_first() =~= v@.skip(i + 1));
            assert(v@.take(i + 1) + first_label(v@.skip(i + 1)) =~= v@.take(i as int) + first_label(rest));
        }
        i = i + 1;
    }
    proof {
        assert(v@.take(i as int) + Seq::<char>::empty() =~= v@.subrange(0, i as int));
    }
    text_of(&v, 0, i)
}

} // verus!
