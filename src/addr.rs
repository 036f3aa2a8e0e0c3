//! IP addresses of both families and their textual forms.
use vstd::prelude::*;
use vstd::arithmetic::power2::{pow2, lemma2_to64, lemma_pow2_adds, lemma_pow2_pos};
use crate::text::{all_digits, digits_value, is_digit, split_on, views, split_bytes};

verus! {

/// An IP address: an IPv4 address as its 32-bit number, an IPv6 address as
/// its 128-bit number.
#[derive(PartialEq, Eq, Structural, Clone, Copy, Debug)]
pub enum IpAddress {
    V4(u32),
    V6(u128),
}

/// One dotted-quad component: one to three digits, no leading zero unless
/// the component is a single `0`, at most 255.
pub open spec fn octet(p: Seq<u8>) -> Option<u8> {
    if 1 <= p.len() <= 3 && all_digits(p) && !(p.len() > 1 && p[0] == 0x30u8)
        && digits_value(p) <= 255 {
        Some(digits_value(p) as u8)
    } else {
        None
    }
}

/// The number of the IPv4 address written as four dot-separated octets.
pub open spec fn ipv4_value(s: Seq<u8>) -> Option<u32> {
    let ps = split_on(s, 0x2Eu8);
    if ps.len() == 4 && forall|i: int| 0 <= i < 4 ==> #[trigger] octet(ps[i]) is Some {
        Some(
            (octet(ps[0]).unwrap() as nat * 0x1000000 + octet(ps[1]).unwrap() as nat * 0x10000
                + octet(ps[2]).unwrap() as nat * 0x100 + octet(ps[3]).unwrap() as nat) as u32,
        )
    } else {
        None
    }
}

fn parse_octet(p: &[u8]) -> (r: Option<u8>)
    ensures
        r == octet(p@),
{
    if p.len() < 1 || p.len() > 3 || (p.len() > 1 && p[0] == 0x30u8) {
        return None;
    }
    let mut acc: u32 = 0;
    let mut i: usize = 0;
    while i < p.len()
        invariant
            1 <= p@.len() <= 3,
            i <= p@.len(),
            all_digits(p@.subrange(0, i as int)),
            acc == digits_value(p@.subrange(0, i as int)),
            i == 0 ==> acc < 1,
            i <= 1 ==> acc < 10,
            i <= 2 ==> acc < 100,
            acc < 1000,
        decreases p@.len() - i,
    {
        let b = p[i];
        let ghost pre = p@.subrange(0, i as int);
        let ghost next = p@.subrange(0, i + 1);
        assert(next.drop_last() =~= pre);
        if b < 0x30u8 || b > 0x39u8 {
            assert(!is_digit(p@[i as int]));
            return None;
        }
        acc = acc * 10 + (b - 0x30u8) as u32;
        i = i + 1;
        assert(all_digits(next)) by {
            assert forall|k: int| 0 <= k < next.len() implies is_digit(#[trigger] next[k]) by {
                if k < pre.len() {
                    assert(next[k] == pre[k]);
                }
            }
        }
    }
    assert(p@.subrange(0, p@.len() as int) =~= p@);
    if acc <= 255 {
        Some(acc as u8)
    } else {
        None
    }
}

/// Reads a dotted-quad IPv4 address.
pub fn parse_ipv4(s: &[u8]) -> (r: Option<u32>)
    ensures
        r == ipv4_value(s@),
{
    let ps = split_bytes(s, 0x2Eu8);
    if ps.len() != 4 {
        return None;
    }
    assert(views(ps@)[0] == ps@[0]@);
    let a = match parse_octet(ps[0].as_slice()) {
        Some(v) => v,
        None => {
            assert(octet(split_on(s@, 0x2Eu8)[0]) is None);
            return None;
        },
    };
    assert(views(ps@)[1] == ps@[1]@);
    let b = match parse_octet(ps[1].as_slice()) {
        Some(v) => v,
        None => {
            assert(octet(split_on(s@, 0x2Eu8)[1]) is None);
            return None;
        },
    };
    assert(views(ps@)[2] == ps@[2]@);
    let c = match parse_octet(ps[2].as_slice()) {
        Some(v) => v,
        None => {
            assert(octet(split_on(s@, 0x2Eu8)[2]) is None);
            return None;
        },
    };
    assert(views(ps@)[3] == ps@[3]@);
    let d = match parse_octet(ps[3].as_slice()) {
        Some(v) => v,
        None => {
            assert(octet(split_on(s@, 0x2Eu8)[3]) is None);
            return None;
        },
    };
    assert forall|i: int| 0 <= i < 4 implies #[trigger] octet(split_on(s@, 0x2Eu8)[i]) is Some by {
        assert(views(ps@)[i] == ps@[i]@);
    }
    Some((a as u32) * 0x1000000 + (b as u32) * 0x10000 + (c as u32) * 0x100 + (d as u32))
}

pub open spec fn is_hex(b: u8) -> bool {
    is_digit(b) || (0x61u8 <= b <= 0x66u8) || (0x41u8 <= b <= 0x46u8)
}

pub open spec fn hex_digit_value(b: u8) -> nat {
    if is_digit(b) {
        (b - 0x30u8) as nat
    } else if 0x61u8 <= b <= 0x66u8 {
        (b - 0x61u8 + 10) as nat
    } else {
        (b - 0x41u8 + 10) as nat
    }
}

/// The number written by the hexadecimal digits `s`, most significant first.
pub open spec fn hex_value(s: Seq<u8>) -> nat
    decreases s.len(),
{
    if s.len() == 0 {
        0
    } else {
        hex_value(s.drop_last()) * 16 + hex_digit_value(s.last())
    }
}

/// One IPv6 group: one to four hexadecimal digits, either case.
pub open spec fn hex_group(p: Seq<u8>) -> Option<u16> {
    if 1 <= p.len() <= 4 && forall|i: int| 0 <= i < p.len() ==> is_hex(#[trigger] p[i]) {
        Some(hex_value(p) as u16)
    } else {
        None
    }
}

/// The groups of a colon-separated list of IPv6 groups, if every piece is one.
pub open spec fn groups_of(t: Seq<u8>) -> Option<Seq<u16>> {
    let ps = split_on(t, 0x3Au8);
    if forall|i: int| 0 <= i < ps.len() ==> #[trigger] hex_group(ps[i]) is Some {
        Some(Seq::new(ps.len(), |i: int| hex_group(ps[i]).unwrap()))
    } else {
        None
    }
}

/// Like `groups_of`, where an empty text holds no groups.
pub open spec fn groups_or_none(t: Seq<u8>) -> Option<Seq<u16>> {
    if t.len() == 0 {
        Some(Seq::<u16>::empty())
    } else {
        groups_of(t)
    }
}

/// The groups of a colon-separated list that ends in an IPv6 group or in a
/// dotted-quad IPv4 address, which stands for two groups.
pub open spec fn groups_ext(t: Seq<u8>) -> Option<Seq<u16>> {
    let ps = split_on(t, 0x3Au8);
    let n = ps.len();
    if forall|i: int| 0 <= i < n - 1 ==> #[trigger] hex_group(ps[i]) is Some {
        let init = Seq::new((n - 1) as nat, |i: int| hex_group(ps[i]).unwrap());
        match hex_group(ps[n - 1]) {
            Some(g) => Some(init.push(g)),
            None => match ipv4_value(ps[n - 1]) {
                Some(v) => Some(init.push((v / 0x10000) as u16).push((v % 0x10000) as u16)),
                None => None,
            },
        }
    } else {
        None
    }
}

/// Like `groups_ext`, where an empty text holds no groups.
pub open spec fn tail_groups(t: Seq<u8>) -> Option<Seq<u16>> {
    if t.len() == 0 {
        Some(Seq::<u16>::empty())
    } else {
        groups_ext(t)
    }
}

/// The number made of 16-bit groups, most significant first.
pub open spec fn groups_value(gs: Seq<u16>) -> nat
    decreases gs.len(),
{
    if gs.len() == 0 {
        0
    } else {
        groups_value(gs.drop_last()) * 0x10000 + gs.last() as nat
    }
}

pub open spec fn double_colon_at(s: Seq<u8>, k: int) -> bool {
    0 <= k && k + 1 < s.len() && s[k] == 0x3Au8 && s[k + 1] == 0x3Au8
}

pub open spec fn first_double_colon(s: Seq<u8>, k: int) -> bool {
    double_colon_at(s, k) && forall|j: int| 0 <= j < k ==> !double_colon_at(s, j)
}

/// The number of the IPv6 address written as eight colon-separated groups,
/// or with one `::` standing for one or more zero groups. The last two
/// groups may be written as a dotted-quad IPv4 address; the groups before a
/// `::` may not end in one.
pub open spec fn ipv6_value(s: Seq<u8>) -> Option<u128> {
    if exists|k: int| first_double_colon(s, k) {
        let k = choose|k: int| first_double_colon(s, k);
        let head = groups_or_none(s.subrange(0, k));
        let tail = tail_groups(s.subrange(k + 2, s.len() as int));
        if head is Some && tail is Some && head.unwrap().len() + tail.unwrap().len() <= 7 {
            let h = head.unwrap();
            let t = tail.unwrap();
            Some(
                groups_value(h + Seq::new((8 - h.len() - t.len()) as nat, |i: int| 0u16) + t) as u128,
            )
        } else {
            None
        }
    } else {
        let g = groups_ext(s);
        if g is Some && g.unwrap().len() == 8 {
            Some(groups_value(g.unwrap()) as u128)
        } else {
            None
        }
    }
}

pub proof fn lemma_groups_value_bound(gs: Seq<u16>)
    ensures
        groups_value(gs) < pow2(16 * gs.len()),
    decreases gs.len(),
{
    lemma_pow2_pos(16 * gs.len());
    if gs.len() > 0 {
        let init = gs.drop_last();
        lemma_groups_value_bound(init);
        lemma_pow2_adds(16 * init.len(), 16);
        lemma2_to64();
        let p = pow2(16 * init.len());
        let v = groups_value(init);
        let l = gs.last() as nat;
        assert(16 * init.len() + 16 == 16 * gs.len());
        assert(v * 0x10000 + l < p * 0x10000) by (nonlinear_arith)
            requires
                v < p,
                l < 0x10000,
        ;
    }
}

fn parse_hex_group(p: &[u8]) -> (r: Option<u16>)
    ensures
        r == hex_group(p@),
{
    if p.len() < 1 || p.len() > 4 {
        return None;
    }
    let mut acc: u32 = 0;
    let mut i: usize = 0;
    while i < p.len()
        invariant
            1 <= p@.len() <= 4,
            i <= p@.len(),
            forall|k: int| 0 <= k < i ==> is_hex(#[trigger] p@[k]),
            acc == hex_value(p@.subrange(0, i as int)),
            i == 0 ==> acc < 1,
            i <= 1 ==> acc < 0x10,
            i <= 2 ==> acc < 0x100,
            i <= 3 ==> acc < 0x1000,
            acc < 0x10000,
        decreases p@.len() - i,
    {
        let b = p[i];
        let ghost pre = p@.subrange(0, i as int);
        let ghost next = p@.subrange(0, i + 1);
        assert(next.drop_last() =~= pre);
        let d: u32 = if 0x30u8 <= b && b <= 0x39u8 {
            (b - 0x30u8) as u32
        } else if 0x61u8 <= b && b <= 0x66u8 {
            (b - 0x61u8 + 10) as u32
        } else if 0x41u8 <= b && b <= 0x46u8 {
            (b - 0x41u8 + 10) as u32
        } else {
            return None;
        };
        acc = acc * 16 + d;
        i = i + 1;
    }
    assert(p@.subrange(0, p@.len() as int) =~= p@);
    Some(acc as u16)
}

/// Reads a colon-separated list of IPv6 groups.
fn parse_groups(t: &[u8]) -> (r: Option<Vec<u16>>)
    ensures
        match r {
            Some(v) => groups_of(t@) == Some(v@),
            None => groups_of(t@) is None,
        },
{
    let ps = split_bytes(t, 0x3Au8);
    let ghost sp = split_on(t@, 0x3Au8);
    let mut out: Vec<u16> = Vec::new();
    let mut i: usize = 0;
    while i < ps.len()
        invariant
            views(ps@) == sp,
            sp == split_on(t@, 0x3Au8),
            i <= ps@.len(),
            out@.len() == i,
            forall|k: int| 0 <= k < i ==> #[trigger] hex_group(sp[k]) == Some(out@[k]),
        decreases ps@.len() - i,
    {
        assert(views(ps@)[i as int] == ps@[i as int]@);
        match parse_hex_group(ps[i].as_slice()) {
            Some(g) => {
                out.push(g);
            },
            None => {
                assert(hex_group(sp[i as int]) is None);
                return None;
            },
        }
        i = i + 1;
    }
    assert(out@ =~= Seq::new(sp.len(), |k: int| hex_group(sp[k]).unwrap()));
    Some(out)
}

fn parse_groups_or_none(t: &[u8]) -> (r: Option<Vec<u16>>)
    ensures
        match r {
            Some(v) => groups_or_none(t@) == Some(v@),
            None => groups_or_none(t@) is None,
        },
{
    if t.len() == 0 {
        let v: Vec<u16> = Vec::new();
        assert(v@ =~= Seq::<u16>::empty());
        Some(v)
    } else {
        parse_groups(t)
    }
}

/// Reads a colon-separated list of IPv6 groups that may end in a dotted-quad
/// IPv4 address.
fn parse_groups_ext(t: &[u8]) -> (r: Option<Vec<u16>>)
    ensures
        match r {
            Some(v) => groups_ext(t@) == Some(v@),
            None => groups_ext(t@) is None,
        },
{
    let ps = split_bytes(t, 0x3Au8);
    let ghost sp = split_on(t@, 0x3Au8);
    proof {
        crate::text::lemma_split_on_nonempty(t@, 0x3Au8);
    }
    let n: usize = ps.len();
    let mut out: Vec<u16> = Vec::new();
    let mut i: usize = 0;
    while i < n - 1
        invariant
            views(ps@) == sp,
            sp == split_on(t@, 0x3Au8),
            n == ps@.len(),
            n >= 1,
            i <= n - 1,
            out@.len() == i,
            forall|k: int| 0 <= k < i ==> #[trigger] hex_group(sp[k]) == Some(out@[k]),
        decreases n - 1 - i,
    {
        assert(views(ps@)[i as int] == ps@[i as int]@);
        match parse_hex_group(ps[i].as_slice()) {
            Some(g) => {
                out.push(g);
            },
            None => {
                assert(hex_group(sp[i as int]) is None);
                return None;
            },
        }
        i = i + 1;
    }
    let ghost init = Seq::new((n - 1) as nat, |k: int| hex_group(sp[k]).unwrap());
    assert(out@ =~= init);
    assert(views(ps@)[n - 1] == ps@[n - 1]@);
    match parse_hex_group(ps[n - 1].as_slice()) {
        Some(g) => {
            out.push(g);
            Some(out)
        },
        None => match parse_ipv4(ps[n - 1].as_slice()) {
            Some(v) => {
                out.push((v / 0x10000) as u16);
                out.push((v % 0x10000) as u16);
                Some(out)
            },
            None => None,
        },
    }
}

fn parse_tail_groups(t: &[u8]) -> (r: Option<Vec<u16>>)
    ensures
        match r {
            Some(v) => tail_groups(t@) == Some(v@),
            None => tail_groups(t@) is None,
        },
{
    if t.len() == 0 {
        let v: Vec<u16> = Vec::new();
        assert(v@ =~= Seq::<u16>::empty());
        Some(v)
    } else {
        parse_groups_ext(t)
    }
}

/// The number made of eight 16-bit groups.
fn join_groups(gs: &Vec<u16>) -> (r: u128)
    requires
        gs@.len() == 8,
    ensures
        r as nat == groups_value(gs@),
{
    let mut v: u128 = 0;
    let mut i: usize = 0;
    proof {
        lemma2_to64();
        lemma_pow2_adds(64, 64);
    }
    while i < 8
        invariant
            gs@.len() == 8,
            i <= 8,
            v as nat == groups_value(gs@.subrange(0, i as int)),
            pow2(128) == 0x1_0000_0000_0000_0000_0000_0000_0000_0000nat,
        decreases 8 - i,
    {
        let ghost pre = gs@.subrange(0, i as int);
        let ghost next = gs@.subrange(0, i + 1);
        assert(next.drop_last() =~= pre);
        proof {
            lemma_groups_value_bound(next);
        }
        assert(groups_value(next) < 0x1_0000_0000_0000_0000_0000_0000_0000_0000nat) by {
            if 16 * next.len() < 128 {
                vstd::arithmetic::power2::lemma_pow2_strictly_increases(16 * next.len(), 128);
            }
        }
        v = v * 0x10000 + gs[i] as u128;
        i = i + 1;
    }
    assert(gs@.subrange(0, 8) =~= gs@);
    v
}

/// Reads an IPv6 address: eight colon-separated groups, or fewer with one
/// `::` in their place.
pub fn parse_ipv6(s: &[u8]) -> (r: Option<u128>)
    ensures
        r == ipv6_value(s@),
{
    let mut i: usize = 1;
    let mut found: bool = false;
    while !found && i < s.len()
        invariant
            1 <= i,
            i <= s@.len() || s@.len() == 0,
            found ==> i < s@.len() && double_colon_at(s@, i - 1),
            forall|j: int| 0 <= j < i - 1 ==> !double_colon_at(s@, j),
        decreases s@.len() - i, if found { 0int } else { 1int },
    {
        if s[i - 1] == 0x3Au8 && s[i] == 0x3Au8 {
            found = true;
        } else {
            i = i + 1;
        }
    }
    let k: usize = i - 1;
    if found {
        assert(first_double_colon(s@, k as int));
        let ghost c = choose|j: int| first_double_colon(s@, j);
        assert(c == k as int) by {
            if c < k {
                assert(!double_colon_at(s@, c));
            } else if c > k {
                assert(!double_colon_at(s@, k as int));
            }
        }
        let n: usize = s.len();
        assert(i < n);
        let head = crate::text::copy_range(s, 0, k);
        let tail = crate::text::copy_range(s, i + 1, n);
        let h = match parse_groups_or_none(head.as_slice()) {
            Some(h) => h,
            None => return None,
        };
        let t = match parse_tail_groups(tail.as_slice()) {
            Some(t) => t,
            None => return None,
        };
        if h.len() > 7 || t.len() > 7 - h.len() {
            return None;
        }
        let mut all: Vec<u16> = h.clone();
        let zeros: usize = 8 - h.len() - t.len();
        let mut z: usize = 0;
        assert(all@ =~= h@ + Seq::new(0, |i: int| 0u16));
        while z < zeros
            invariant
                z <= zeros,
                all@ =~= h@ + Seq::new(z as nat, |i: int| 0u16),
            decreases zeros - z,
        {
            all.push(0);
            z = z + 1;
            assert(all@ =~= h@ + Seq::new(z as nat, |i: int| 0u16));
        }
        let mut j: usize = 0;
        let ghost mid = all@;
        while j < t.len()
            invariant
                j <= t@.len(),
                all@ =~= mid + t@.subrange(0, j as int),
            decreases t@.len() - j,
        {
            all.push(t[j]);
            j = j + 1;
            assert(all@ =~= mid + t@.subrange(0, j as int));
        }
        assert(t@.subrange(0, t@.len() as int) =~= t@);
        Some(join_groups(&all))
    } else {
        assert forall|j: int| !first_double_colon(s@, j) by {
            if first_double_colon(s@, j) {
                assert(j < k);
            }
        }
        match parse_groups_ext(s) {
            Some(g) => {
                if g.len() == 8 {
                    Some(join_groups(&g))
                } else {
                    None
                }
            },
            None => None,
        }
    }
}

/// What `s` reads as: an IPv4 address if it is one, else an IPv6 address.
pub open spec fn address_of(s: Seq<u8>) -> Option<IpAddress> {
    match ipv4_value(s) {
        Some(v) => Some(IpAddress::V4(v)),
        None => match ipv6_value(s) {
            Some(v) => Some(IpAddress::V6(v)),
            None => None,
        },
    }
}

/// Reads an IP address of either family.
pub fn parse_address(s: &[u8]) -> (r: Option<IpAddress>)
    ensures
        r == address_of(s@),
{
    match parse_ipv4(s) {
        Some(v) => Some(IpAddress::V4(v)),
        None => match parse_ipv6(s) {
            Some(v) => Some(IpAddress::V6(v)),
            None => None,
        },
    }
}

} // verus!
