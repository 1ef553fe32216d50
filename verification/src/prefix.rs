//! IP prefixes, stored canonically.
//!
//! A prefix is a tagged IPv4 or IPv6 network: an address and a prefix length.
//! IPv4 addresses live in the low 32 bits of the `u128` address field. A
//! well-formed prefix has its host bits zeroed, so structural equality is
//! network equality, and "supernet or equal" is a comparison of truncated
//! addresses. Parsing CIDR text is delegated to the ipnet crate; the parsed
//! raw parts are canonicalized here.

use vstd::prelude::*;
use vstd::arithmetic::power2::{
    pow2, lemma_pow2_adds, lemma2_to64, lemma_pow2_strictly_increases, lemma_pow2_pos,
};
use vstd::arithmetic::div_mod::{
    lemma_fundamental_div_mod, lemma_mod_multiples_basic, lemma_small_mod, lemma_mod_bound,
};

verus! {

/// A tagged IPv4 or IPv6 network address.
#[derive(Debug, Clone, Copy, PartialEq, Eq, Structural, Hash)]
pub struct IpPrefix {
    /// `true` for IPv4, `false` for IPv6.
    pub v4: bool,
    /// Network address; an IPv4 address occupies the low 32 bits.
    pub addr: u128,
    /// Prefix length, `0..=32` for IPv4 and `0..=128` for IPv6.
    pub len: u8,
}

/// Address width in bits of the prefix's family.
pub open spec fn spec_width(v4: bool) -> nat {
    if v4 {
        32
    } else {
        128
    }
}

/// The address with its low `shift` bits cleared.
pub open spec fn spec_trunc(addr: u128, shift: nat) -> int {
    addr - (addr as int % pow2(shift) as int)
}

impl IpPrefix {
    /// Well-formed: the length fits the family, the address fits the family,
    /// and the host bits (below the prefix length) are zero.
    pub open spec fn wf(self) -> bool {
        &&& self.len as nat <= spec_width(self.v4)
        &&& (self.addr as nat) < pow2(spec_width(self.v4))
        &&& self.addr as int % pow2((spec_width(self.v4) - self.len as nat) as nat) as int == 0
    }

    /// `self` is a supernet of `other`, or the same network: same family, no
    /// longer, and `other`'s address starts with `self`'s `len` bits.
    pub open spec fn spec_covers(self, other: IpPrefix) -> bool {
        &&& self.v4 == other.v4
        &&& self.len <= other.len
        &&& spec_trunc(other.addr, (spec_width(self.v4) - self.len as nat) as nat)
            == self.addr as int
    }
}

proof fn lemma_pow2_128()
    ensures
        pow2(128) == 0x1_00000000_00000000_00000000_00000000,
        pow2(32) == 0x1_00000000,
{
    lemma2_to64();
    lemma_pow2_adds(64, 64);
}

/// 2 to the `k`, as a `u128`.
fn pow2_u128(k: usize) -> (r: u128)
    requires
        k < 128,
    ensures
        r == pow2(k as nat),
        r >= 1,
{
    let mut r: u128 = 1;
    let mut i: usize = 0;
    proof {
        lemma2_to64();
    }
    while i < k
        invariant
            i <= k < 128,
            r == pow2(i as nat),
            r >= 1,
        decreases k - i,
    {
        proof {
            lemma_pow2_strictly_increases((i + 1) as nat, 128);
            lemma_pow2_128();
            assert(pow2((i + 1) as nat) == 2 * pow2(i as nat)) by {
                lemma_pow2_adds(1, i as nat);
                lemma2_to64();
            }
        }
        r = r * 2;
        i = i + 1;
    }
    r
}

/// The address with its low `shift` bits cleared.
fn trunc_addr(addr: u128, shift: usize) -> (r: u128)
    requires
        shift <= 128,
    ensures
        r as int == spec_trunc(addr, shift as nat),
{
    if shift >= 128 {
        proof {
            lemma_pow2_128();
            lemma_small_mod(addr as nat, pow2(128));
        }
        0
    } else {
        let p = pow2_u128(shift);
        proof {
            lemma_fundamental_div_mod(addr as int, p as int);
            lemma_mod_bound(addr as int, p as int);
            assert((p as int) * (addr as int / p as int) == (addr as int / p as int) * (
            p as int)) by (nonlinear_arith);
        }
        (addr / p) * p
    }
}

impl IpPrefix {
    /// Build a canonical prefix from raw parts: reject lengths or addresses
    /// that do not fit the family, and zero the host bits.
    pub fn from_parts(v4: bool, addr: u128, len: u8) -> (r: Option<IpPrefix>)
        ensures
            r is Some <==> (len as nat <= spec_width(v4) && (addr as nat) < pow2(spec_width(v4))),
            r matches Some(p) ==> p.wf() && p.v4 == v4 && p.len == len,
            r matches Some(p) ==> p.addr as int == spec_trunc(
                addr,
                (spec_width(v4) - len as nat) as nat,
            ),
    {
        let width: u16 = if v4 {
            32
        } else {
            128
        };
        proof {
            lemma_pow2_128();
        }
        if len as u16 > width {
            return None;
        }
        if v4 && addr >= 0x1_00000000 {
            return None;
        }
        let shift = (width - len as u16) as usize;
        let canon = trunc_addr(addr, shift);
        proof {
            let p = pow2(shift as nat) as int;
            lemma_pow2_pos(shift as nat);
            lemma_fundamental_div_mod(addr as int, p);
            assert(canon as int == p * (addr as int / p));
            lemma_mod_multiples_basic(addr as int / p, p);
            assert(canon as int % p == 0) by {
                assert(p * (addr as int / p) == (addr as int / p) * p) by (nonlinear_arith);
            }
        }
        Some(IpPrefix { v4, addr: canon, len })
    }

    /// Same-family supernet-or-equal test over canonical prefixes.
    pub fn covers(&self, other: &IpPrefix) -> (r: bool)
        requires
            self.wf(),
            other.wf(),
        ensures
            r == self.spec_covers(*other),
    {
        if self.v4 != other.v4 {
            return false;
        }
        if self.len > other.len {
            return false;
        }
        let width: u16 = if self.v4 {
            32
        } else {
            128
        };
        let shift = (width - self.len as u16) as usize;
        let t = trunc_addr(other.addr, shift);
        t == self.addr
    }
}

/// What ipnet's CIDR parser makes of a byte string: family, address and
/// prefix length, or `None` where the text is not a valid CIDR network.
pub uninterp spec fn ipnet_parse_of(s: Seq<u8>) -> Option<(bool, u128, u8)>;

/// Relies on ipnet's `IpNet::from_str` (CIDR notation, either family): the
/// parse is a function of the input bytes alone; a parsed IPv4 network has a
/// 32-bit address and `prefix_len <= 32`, a parsed IPv6 network has
/// `prefix_len <= 128`.
#[verifier::external_body]
fn parse_ipnet(s: &[u8]) -> (r: Option<(bool, u128, u8)>)
    ensures
        r == ipnet_parse_of(s@),
        r matches Some(p) ==> (p.0 ==> p.1 < 0x1_00000000 && p.2 <= 32),
        r matches Some(p) ==> (!p.0 ==> p.2 <= 128),
{
    let text = match core::str::from_utf8(s) {
        Ok(t) => t,
        Err(_) => return None,
    };
    match text.parse::<ipnet::IpNet>() {
        Ok(ipnet::IpNet::V4(n)) => Some((true, u32::from(n.addr()) as u128, n.prefix_len())),
        Ok(ipnet::IpNet::V6(n)) => Some((false, u128::from(n.addr()), n.prefix_len())),
        Err(_) => None,
    }
}

/// The canonical prefix built from a raw (family, address, length) triple:
/// the host bits are zeroed.
pub open spec fn canon_of(raw: (bool, u128, u8)) -> IpPrefix {
    IpPrefix {
        v4: raw.0,
        addr: spec_trunc(raw.1, (spec_width(raw.0) - raw.2 as nat) as nat) as u128,
        len: raw.2,
    }
}

/// Parse CIDR text into a canonical prefix: `None` exactly where ipnet
/// rejects the text; host bits of an accepted network are zeroed.
pub fn parse_prefix(s: &[u8]) -> (r: Option<IpPrefix>)
    ensures
        r is Some <==> ipnet_parse_of(s@) is Some,
        r matches Some(p) ==> p.wf(),
        r matches Some(p) ==> (ipnet_parse_of(s@) matches Some(raw) && p == canon_of(raw)),
    {
        match parse_ipnet(s) {
            None => None,
            Some((v4, addr, len)) => {
                proof {
                    lemma_pow2_128();
                }
                let p = IpPrefix::from_parts(v4, addr, len);
                proof {
                    lemma_pow2_strictly_increases(32, 128);
                    let shift = (spec_width(v4) - len as nat) as nat;
                    let pw = pow2(shift) as int;
                    lemma_pow2_pos(shift);
                    lemma_mod_bound(addr as int, pw);
                    assert(0 <= spec_trunc(addr, shift) <= addr as int);
                    assert(p.unwrap().addr == canon_of((v4, addr, len)).addr);
                }
                Some(p.unwrap())
            },
        }
}

} // verus!
