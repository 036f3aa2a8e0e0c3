//! Address-family-aware prefixes and containment.
use vstd::prelude::*;
use vstd::arithmetic::power2::pow2;
use vstd::bits::{lemma_u32_shr_is_div, lemma_u128_shr_is_div};
use crate::addr::{IpAddress, address_of, parse_address};
use crate::text::{decimal_u8, split_on, views, split_bytes, parse_u8};

verus! {

/// The number of bits in an address of the family of `a`.
pub open spec fn width(a: IpAddress) -> nat {
    match a {
        IpAddress::V4(_) => 32,
        IpAddress::V6(_) => 128,
    }
}

/// An address and a prefix length: the set of addresses that share the
/// address's first `len` bits.
#[derive(PartialEq, Eq, Structural, Clone, Copy, Debug)]
pub struct Cidr {
    pub addr: IpAddress,
    pub len: u8,
}

/// Why a text is not a prefix.
#[derive(PartialEq, Eq, Structural, Clone, Copy, Debug)]
pub enum CidrError {
    /// The text does not hold exactly one `/`.
    Separator,
    /// The part before the `/` is no IP address.
    Address,
    /// The part after the `/` is no byte-sized decimal.
    Length,
    /// The length exceeds the bit width of the address family.
    LengthOutOfRange,
}

impl Cidr {
    /// The length fits the address family.
    pub open spec fn wf(self) -> bool {
        self.len as nat <= width(self.addr)
    }
}

/// The prefix that `s` writes as `address/length`, or why it writes none.
pub open spec fn cidr_of(s: Seq<u8>) -> Result<Cidr, CidrError> {
    let ps = split_on(s, 0x2Fu8);
    if ps.len() != 2 {
        Err(CidrError::Separator)
    } else {
        match address_of(ps[0]) {
            None => Err(CidrError::Address),
            Some(a) => match decimal_u8(ps[1]) {
                None => Err(CidrError::Length),
                Some(l) => if l as nat > width(a) {
                    Err(CidrError::LengthOutOfRange)
                } else {
                    Ok(Cidr { addr: a, len: l })
                },
            },
        }
    }
}

/// `x` and `y` agree in their first `len` bits out of `w`.
pub open spec fn same_top_bits(x: nat, y: nat, w: nat, len: nat) -> bool {
    len == 0 || x / pow2((w - len) as nat) == y / pow2((w - len) as nat)
}

/// `c` covers `a`: same family, and the first `c.len` bits agree.
#[verifier::opaque]
pub open spec fn covers(c: Cidr, a: IpAddress) -> bool {
    match (c.addr, a) {
        (IpAddress::V4(x), IpAddress::V4(y)) => same_top_bits(x as nat, y as nat, 32, c.len as nat),
        (IpAddress::V6(x), IpAddress::V6(y)) => same_top_bits(x as nat, y as nat, 128, c.len as nat),
        _ => false,
    }
}

impl Cidr {
    /// Reads `address/length`.
    pub fn parse(s: &[u8]) -> (r: Result<Cidr, CidrError>)
        ensures
            r == cidr_of(s@),
            r matches Ok(c) ==> c.wf(),
    {
        let ps = split_bytes(s, 0x2Fu8);
        if ps.len() != 2 {
            return Err(CidrError::Separator);
        }
        assert(views(ps@)[0] == ps@[0]@);
        assert(views(ps@)[1] == ps@[1]@);
        let addr = match parse_address(ps[0].as_slice()) {
            Some(a) => a,
            None => return Err(CidrError::Address),
        };
        let len = match parse_u8(ps[1].as_slice()) {
            Some(l) => l,
            None => return Err(CidrError::Length),
        };
        let limit: u8 = match addr {
            IpAddress::V4(_) => 32,
            IpAddress::V6(_) => 128,
        };
        if len > limit {
            Err(CidrError::LengthOutOfRange)
        } else {
            Ok(Cidr { addr, len })
        }
    }

    /// Whether `a` lies in this prefix; an address of the other family never
    /// does.
    pub fn contains(&self, a: &IpAddress) -> (r: bool)
        requires
            self.wf(),
        ensures
            r == covers(*self, *a),
    {
        reveal(covers);
        if self.len == 0 {
            return match (self.addr, *a) {
                (IpAddress::V4(_), IpAddress::V4(_)) => true,
                (IpAddress::V6(_), IpAddress::V6(_)) => true,
                _ => false,
            };
        }
        match (self.addr, *a) {
            (IpAddress::V4(x), IpAddress::V4(y)) => {
                let shift: u32 = 32 - self.len as u32;
                proof {
                    lemma_u32_shr_is_div(x, shift);
                    lemma_u32_shr_is_div(y, shift);
                }
                (x >> shift) == (y >> shift)
            },
            (IpAddress::V6(x), IpAddress::V6(y)) => {
                let shift: u128 = 128 - self.len as u128;
                proof {
                    lemma_u128_shr_is_div(x, shift);
                    lemma_u128_shr_is_div(y, shift);
                }
                (x >> shift) == (y >> shift)
            },
            _ => false,
        }
    }
}

proof fn lemma_split_without_sep(s: Seq<u8>, sep: u8)
    requires
        forall|i: int| 0 <= i < s.len() ==> s[i] != sep,
    ensures
        split_on(s, sep) == seq![s],
    decreases s.len(),
{
    if s.len() > 0 {
        lemma_split_without_sep(s.drop_last(), sep);
        assert(s.drop_last().push(s.last()) =~= s);
        assert(seq![s.drop_last()].update(0, s.drop_last().push(s.last())) =~= seq![s]);
    } else {
        assert(s =~= Seq::<u8>::empty());
    }
}

proof fn lemma_split_after_sep(p: Seq<u8>, l: Seq<u8>, sep: u8)
    requires
        forall|i: int| 0 <= i < l.len() ==> l[i] != sep,
    ensures
        split_on(p + seq![sep] + l, sep) == split_on(p, sep).push(l),
    decreases l.len(),
{
    if l.len() == 0 {
        assert(p + seq![sep] + l =~= p.push(sep));
        assert((p + seq![sep] + l).drop_last() =~= p);
        assert(l =~= Seq::<u8>::empty());
    } else {
        let init = l.drop_last();
        lemma_split_after_sep(p, init, sep);
        let s = p + seq![sep] + l;
        assert(s.drop_last() =~= p + seq![sep] + init);
        assert(init.push(l.last()) =~= l);
        assert(s.last() == l.last());
        assert(split_on(p, sep).push(init).update(
            split_on(p, sep).len() as int,
            init.push(l.last()),
        ) =~= split_on(p, sep).push(l));
        assert(init.push(l.last()) =~= l);
    }
}

/// Writing an address and a length with a `/` between them, and reading the
/// text back as a prefix, gives that address and that length.
pub proof fn lemma_parse_address_slash_length(a: Seq<u8>, l: Seq<u8>)
    requires
        forall|i: int| 0 <= i < a.len() ==> a[i] != 0x2Fu8,
        forall|i: int| 0 <= i < l.len() ==> l[i] != 0x2Fu8,
        address_of(a) is Some,
        decimal_u8(l) is Some,
        decimal_u8(l).unwrap() as nat <= width(address_of(a).unwrap()),
    ensures
        cidr_of(a + seq![0x2Fu8] + l) == Ok::<Cidr, CidrError>(
            Cidr { addr: address_of(a).unwrap(), len: decimal_u8(l).unwrap() },
        ),
{
    lemma_split_without_sep(a, 0x2Fu8);
    lemma_split_after_sep(a, l, 0x2Fu8);
    assert(split_on(a + seq![0x2Fu8] + l, 0x2Fu8) =~= seq![a, l]);
}

/// A prefix covers its own address.
pub proof fn lemma_covers_own_address(c: Cidr)
    ensures
        covers(c, c.addr),
{
    reveal(covers);
}

/// A prefix never covers an address of the other family.
pub proof fn lemma_no_cross_family(c: Cidr, a: IpAddress)
    requires
        width(c.addr) != width(a),
    ensures
        !covers(c, a),
{
    reveal(covers);
}

} // verus!
