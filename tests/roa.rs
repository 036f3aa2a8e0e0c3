use rpsl_roa::addr::{parse_address, parse_ipv4, parse_ipv6, IpAddress};
use rpsl_roa::cidr::{Cidr, CidrError};
use rpsl_roa::dataset::{assemble, CACHE_EXPIRY};
use rpsl_roa::policy::{add_policy_rules, match_rule, parse_policy, parse_rule_line, PolicyRule, Verdict};
use rpsl_roa::record::{parse_record, RecordError};
use rpsl_roa::resolve::{
    effective_max_length, process_directory, process_entry, resolve, EntryError, ResolveError,
    RoaEntry,
};
use rpsl_roa::text::{parse_u8, split_bytes, split_words, to_ascii_lower, to_ascii_upper};

fn v4(a: u32, b: u32, c: u32, d: u32) -> IpAddress {
    IpAddress::V4((a << 24) | (b << 16) | (c << 8) | d)
}

fn cidr(s: &str) -> Cidr {
    Cidr::parse(s.as_bytes()).unwrap()
}

fn rule(c: &str, verdict: Verdict, min_len: u8, max_len: u8) -> PolicyRule {
    PolicyRule { cidr: cidr(c), verdict, min_len, max_len }
}

fn entry(prefix: &str, max_length: u8, asn: &str) -> (Vec<u8>, u8, Vec<u8>) {
    (prefix.as_bytes().to_vec(), max_length, asn.as_bytes().to_vec())
}

fn views(v: &[RoaEntry]) -> Vec<(Vec<u8>, u8, Vec<u8>)> {
    v.iter().map(|e| (e.prefix.clone(), e.max_length, e.asn.clone())).collect()
}

#[test]
fn text_helpers() {
    let pieces = split_bytes(b"a\n\nb\n", b'\n');
    assert_eq!(pieces, vec![b"a".to_vec(), vec![], b"b".to_vec(), vec![]]);
    let words = split_words(b"  one\t two  three ");
    assert_eq!(words, vec![b"one".to_vec(), b"two".to_vec(), b"three".to_vec()]);
    assert!(split_words(b" \t ").is_empty());
    assert_eq!(to_ascii_lower(b"Route6: AS1"), b"route6: as1".to_vec());
    assert_eq!(to_ascii_upper(b"as200x"), b"AS200X".to_vec());
}

#[test]
fn byte_decimals() {
    assert_eq!(parse_u8(b"0"), Some(0));
    assert_eq!(parse_u8(b"255"), Some(255));
    assert_eq!(parse_u8(b"+24"), Some(24));
    assert_eq!(parse_u8(b"0024"), Some(24));
    assert_eq!(parse_u8(b"256"), None);
    assert_eq!(parse_u8(b"99999999999"), None);
    assert_eq!(parse_u8(b""), None);
    assert_eq!(parse_u8(b"+"), None);
    assert_eq!(parse_u8(b"-1"), None);
    assert_eq!(parse_u8(b"2a"), None);
}

#[test]
fn ipv4_addresses() {
    assert_eq!(parse_ipv4(b"10.1.0.0"), Some(0x0A01_0000));
    assert_eq!(parse_ipv4(b"255.255.255.255"), Some(u32::MAX));
    assert_eq!(parse_ipv4(b"0.0.0.0"), Some(0));
    assert_eq!(parse_ipv4(b"256.0.0.0"), None);
    assert_eq!(parse_ipv4(b"01.0.0.0"), None);
    assert_eq!(parse_ipv4(b"1.2.3"), None);
    assert_eq!(parse_ipv4(b"1.2.3.4.5"), None);
    assert_eq!(parse_ipv4(b"1..3.4"), None);
}

#[test]
fn ipv6_addresses() {
    assert_eq!(parse_ipv6(b"::"), Some(0));
    assert_eq!(parse_ipv6(b"::1"), Some(1));
    assert_eq!(parse_ipv6(b"fd00::"), Some(0xfd00u128 << 112));
    assert_eq!(
        parse_ipv6(b"2001:db8::1:2"),
        Some((0x2001u128 << 112) | (0x0db8u128 << 96) | (1u128 << 16) | 2)
    );
    assert_eq!(
        parse_ipv6(b"1:2:3:4:5:6:7:8"),
        Some(0x0001_0002_0003_0004_0005_0006_0007_0008u128)
    );
    assert_eq!(parse_ipv6(b"FFFF::"), Some(0xffffu128 << 112));
    assert_eq!(parse_ipv6(b"1:2:3:4:5:6:7"), None);
    assert_eq!(parse_ipv6(b"1:2:3:4:5:6:7:8:9"), None);
    assert_eq!(parse_ipv6(b"1:2:3:4::5:6:7:8"), None);
    assert_eq!(parse_ipv6(b"1::2::3"), None);
    assert_eq!(parse_ipv6(b":::"), None);
    assert_eq!(parse_ipv6(b"12345::"), None);
    assert_eq!(parse_ipv6(b"g::"), None);
    assert_eq!(parse_address(b"10.0.0.1"), Some(v4(10, 0, 0, 1)));
}

#[test]
fn ipv6_with_dotted_quad_tail() {
    assert_eq!(parse_ipv6(b"::ffff:192.0.2.1"), Some(0xffff_c000_0201u128));
    assert_eq!(
        parse_ipv6(b"1:2:3:4:5:6:1.2.3.4"),
        Some(0x0001_0002_0003_0004_0005_0006_0102_0304u128)
    );
    assert_eq!(parse_ipv6(b"::1.2.3.4"), Some(0x0102_0304u128));
    assert_eq!(parse_ipv6(b"1.2.3.4::"), None);
    assert_eq!(parse_ipv6(b"1.2.3.4::1"), None);
    assert_eq!(parse_ipv6(b"::1.2.3.4:5"), None);
    assert_eq!(parse_ipv6(b"1:2:3:4:5:6:7:1.2.3.4"), None);
    assert_eq!(parse_ipv6(b"1:2:3:4:5::1.2.3.4"), Some(0x0001_0002_0003_0004_0005_0000_0102_0304u128));
    assert_eq!(parse_ipv6(b"1:2:3:4:5:6::1.2.3.4"), None);
    assert_eq!(parse_ipv6(b"::1.2.3.256"), None);
    assert_eq!(parse_address(b"::2"), Some(IpAddress::V6(2)));
    assert_eq!(parse_address(b"host"), None);
}

#[test]
fn cidr_parse_and_errors() {
    assert_eq!(
        Cidr::parse(b"10.0.0.0/8"),
        Ok(Cidr { addr: v4(10, 0, 0, 0), len: 8 })
    );
    assert_eq!(
        Cidr::parse(b"fd00::/8"),
        Ok(Cidr { addr: IpAddress::V6(0xfd00u128 << 112), len: 8 })
    );
    assert_eq!(Cidr::parse(b"10.0.0.0"), Err(CidrError::Separator));
    assert_eq!(Cidr::parse(b"10.0.0.0/8/9"), Err(CidrError::Separator));
    assert_eq!(Cidr::parse(b"ten/8"), Err(CidrError::Address));
    assert_eq!(Cidr::parse(b"10.0.0.0/x"), Err(CidrError::Length));
    assert_eq!(Cidr::parse(b"10.0.0.0/33"), Err(CidrError::LengthOutOfRange));
    assert_eq!(Cidr::parse(b"::/128").map(|c| c.len), Ok(128));
    assert_eq!(Cidr::parse(b"::/129"), Err(CidrError::LengthOutOfRange));
}

#[test]
fn cidr_round_trip_and_self_containment() {
    for (a, l) in [("192.168.0.0", 16u8), ("0.0.0.0", 0), ("2001:db8::", 32), ("::1", 128)] {
        let text = format!("{a}/{l}");
        let c = Cidr::parse(text.as_bytes()).unwrap();
        assert_eq!(Some(c.addr), parse_address(a.as_bytes()));
        assert_eq!(c.len, l);
        assert!(c.contains(&c.addr));
    }
}

#[test]
fn cidr_containment() {
    let net = cidr("10.0.0.0/8");
    assert!(net.contains(&v4(10, 255, 1, 2)));
    assert!(!net.contains(&v4(11, 0, 0, 0)));
    let all = cidr("0.0.0.0/0");
    assert!(all.contains(&v4(203, 0, 113, 9)));
    let host = cidr("10.0.0.1/32");
    assert!(host.contains(&v4(10, 0, 0, 1)));
    assert!(!host.contains(&v4(10, 0, 0, 2)));
    let v6 = cidr("2001:db8::/32");
    assert!(v6.contains(&IpAddress::V6((0x2001u128 << 112) | (0x0db8u128 << 96) | 5)));
    assert!(!v6.contains(&IpAddress::V6(0x2001u128 << 112)));
}

#[test]
fn containment_never_crosses_families() {
    assert!(!cidr("0.0.0.0/0").contains(&IpAddress::V6(0)));
    assert!(!cidr("::/0").contains(&v4(0, 0, 0, 0)));
    assert!(!cidr("10.0.0.0/8").contains(&IpAddress::V6(0x0A00_0000)));
}

#[test]
fn policy_lines() {
    let r = parse_rule_line(b"1 permit 10.0.0.0/8 16 24").unwrap();
    assert_eq!(r, rule("10.0.0.0/8", Verdict::Permit, 16, 24));
    let r = parse_rule_line(b"22\tdeny  fd00::/8 8 128 trailing").unwrap();
    assert_eq!(r, rule("fd00::/8", Verdict::Deny, 8, 128));
    assert_eq!(parse_rule_line(b"# 1 permit 10.0.0.0/8 16 24"), None);
    assert_eq!(parse_rule_line(b"1 Permit 10.0.0.0/8 16 24"), None);
    assert_eq!(parse_rule_line(b"1 allow 10.0.0.0/8 16 24"), None);
    assert_eq!(parse_rule_line(b"1 permit 10.0.0.0 16 24"), None);
    assert_eq!(parse_rule_line(b"1 permit 10.0.0.0/8 16"), None);
    assert_eq!(parse_rule_line(b"1 permit 10.0.0.0/8 16 300"), None);
    assert_eq!(parse_rule_line(b""), None);
}

#[test]
fn policy_text_keeps_order_and_skips_noise() {
    let text = "# header\n1 permit 10.0.0.0/8 16 24\n\n2 bogus 1.0.0.0/8 8 8\n3 deny 10.1.0.0/16 0 32\n";
    let rules = parse_policy(text.as_bytes());
    assert_eq!(
        rules,
        vec![
            rule("10.0.0.0/8", Verdict::Permit, 16, 24),
            rule("10.1.0.0/16", Verdict::Deny, 0, 32)
        ]
    );
    let mut all = rules.clone();
    add_policy_rules(&mut all, b"1 permit ::/0 12 48");
    assert_eq!(all.len(), 3);
    assert_eq!(all[2], rule("::/0", Verdict::Permit, 12, 48));
}

#[test]
fn first_match_in_rule_order() {
    let wide = rule("10.0.0.0/8", Verdict::Permit, 8, 24);
    let narrow = rule("10.1.0.0/16", Verdict::Deny, 0, 32);
    let other = rule("192.168.0.0/16", Verdict::Permit, 16, 24);
    let a = v4(10, 1, 2, 3);
    assert_eq!(match_rule(&vec![wide, narrow], &a), Some(wide));
    assert_eq!(match_rule(&vec![narrow, wide], &a), Some(narrow));
    assert_eq!(match_rule(&vec![other, wide], &a), Some(wide));
    assert_eq!(match_rule(&vec![wide, other], &a), Some(wide));
    assert_eq!(match_rule(&vec![other], &a), None);
    assert_eq!(match_rule(&vec![], &a), None);
}

#[test]
fn record_parsing() {
    let text = "Route: 10.1.0.0/16\ndescr: test\n  origin: AS9\norigin: as100\nORIGIN: AS100\nmax-length: 20\nroute: 10.2.0.0/16\n";
    let rec = parse_record(text.as_bytes()).unwrap();
    assert_eq!(rec.prefix, b"10.2.0.0/16".to_vec());
    assert_eq!(rec.origins, vec![b"AS100".to_vec(), b"AS100".to_vec()]);
    assert_eq!(rec.max_length, Some(20));
    let rec6 = parse_record(b"route6: FD00::/8\norigin: as1").unwrap();
    assert_eq!(rec6.prefix, b"fd00::/8".to_vec());
    assert_eq!(rec6.max_length, None);
    assert_eq!(
        parse_record(b"route: 10.0.0.0/8\nmax-length: big").err(),
        Some(RecordError::MaxLength)
    );
    assert_eq!(
        parse_record(b"max-length: big\norigin: AS1").err(),
        Some(RecordError::MaxLength)
    );
    assert_eq!(parse_record(b"origin: AS1\nroute:").err(), Some(RecordError::MissingRoute));
}

#[test]
fn clamping_of_max_length() {
    let r = rule("10.0.0.0/8", Verdict::Permit, 16, 24);
    assert_eq!(effective_max_length(&r, None), 24);
    assert_eq!(effective_max_length(&r, Some(30)), 24);
    assert_eq!(effective_max_length(&r, Some(10)), 16);
    assert_eq!(effective_max_length(&r, Some(20)), 20);
}

#[test]
fn deny_gives_empty_not_error() {
    let rules = vec![rule("10.0.0.0/8", Verdict::Deny, 0, 32)];
    let rec = parse_record(b"route: 10.9.0.0/16\norigin: AS1").unwrap();
    assert_eq!(resolve(&rec, &rules).map(|v| v.len()), Ok(0));
}

#[test]
fn uncovered_address_is_no_policy_error() {
    let rules = vec![rule("10.0.0.0/8", Verdict::Permit, 8, 24)];
    let rec = parse_record(b"route: 192.0.2.0/24\norigin: AS1").unwrap();
    assert_eq!(resolve(&rec, &rules).err(), Some(ResolveError::NoPolicy));
    let v6 = parse_record(b"route6: 2001:db8::/32\norigin: AS1").unwrap();
    assert_eq!(resolve(&v6, &rules).err(), Some(ResolveError::NoPolicy));
}

#[test]
fn malformed_prefix_is_error() {
    let rules = vec![rule("0.0.0.0/0", Verdict::Permit, 0, 32)];
    let rec = parse_record(b"route: 10.0.0.0\norigin: AS1").unwrap();
    assert_eq!(
        resolve(&rec, &rules).err(),
        Some(ResolveError::Prefix(CidrError::Separator))
    );
    assert_eq!(
        process_entry(b"route: 10.0.0.0/40\norigin: AS1", &rules).err(),
        Some(EntryError::Resolve(ResolveError::Prefix(CidrError::LengthOutOfRange)))
    );
    assert_eq!(
        process_entry(b"origin: AS1", &rules).err(),
        Some(EntryError::Record(RecordError::MissingRoute))
    );
}

#[test]
fn too_specific_prefix_gives_empty() {
    let rules = vec![rule("10.0.0.0/8", Verdict::Permit, 8, 16)];
    let rec = parse_record(b"route: 10.1.1.0/24\norigin: AS1").unwrap();
    assert_eq!(resolve(&rec, &rules).map(|v| v.len()), Ok(0));
}

#[test]
fn one_entry_per_origin_in_order() {
    let rules = vec![rule("10.0.0.0/8", Verdict::Permit, 8, 24)];
    let rec = parse_record(b"route: 10.1.0.0/16\norigin: AS3\norigin: AS1\norigin: AS2").unwrap();
    let v = resolve(&rec, &rules).unwrap();
    assert_eq!(
        views(&v),
        vec![
            entry("10.1.0.0/16", 24, "AS3"),
            entry("10.1.0.0/16", 24, "AS1"),
            entry("10.1.0.0/16", 24, "AS2")
        ]
    );
    let none = parse_record(b"route: 10.1.0.0/16").unwrap();
    assert_eq!(resolve(&none, &rules).map(|v| v.len()), Ok(0));
}

#[test]
fn end_to_end_permit_two_origins() {
    let rules = parse_policy(b"1 permit 10.0.0.0/8 16 24");
    let v = process_entry(b"route: 10.1.0.0/16\norigin: AS100\norigin: as200\n", &rules).unwrap();
    assert_eq!(
        views(&v),
        vec![entry("10.1.0.0/16", 24, "AS100"), entry("10.1.0.0/16", 24, "AS200")]
    );
}

#[test]
fn end_to_end_deny() {
    let rules = parse_policy(b"1 deny 10.0.0.0/8 0 32");
    let v = process_entry(b"route: 10.2.0.0/16\norigin: AS5\n", &rules).unwrap();
    assert!(v.is_empty());
}

#[test]
fn end_to_end_clamped_too_specific() {
    let rules = parse_policy(b"1 permit 10.0.0.0/8 16 20");
    let v = process_entry(b"route: 10.3.0.0/24\nmax-length: 28\norigin: AS7\n", &rules).unwrap();
    assert!(v.is_empty());
}

#[test]
fn directory_skips_failing_records() {
    let rules = parse_policy(b"1 permit 10.0.0.0/8 16 24\n1 permit ::/0 16 48");
    let texts = vec![
        b"route: 10.1.0.0/16\norigin: AS1".to_vec(),
        b"route: 192.0.2.0/24\norigin: AS2".to_vec(),
        b"max-length: x\nroute: 10.5.0.0/16\norigin: AS3".to_vec(),
        b"route6: 2001:db8::/32\norigin: AS4\nmax-length: 40".to_vec(),
    ];
    let mut roas = Vec::new();
    process_directory(&mut roas, &texts, &rules);
    assert_eq!(
        views(&roas),
        vec![entry("10.1.0.0/16", 24, "AS1"), entry("2001:db8::/32", 40, "AS4")]
    );
}

#[test]
fn dataset_metadata() {
    let rules = parse_policy(b"1 permit 10.0.0.0/8 16 24");
    let v = process_entry(b"route: 10.1.0.0/16\norigin: AS1\norigin: AS2", &rules).unwrap();
    let routes = assemble(v, 1_700_000_000);
    assert_eq!(routes.metadata.counts, 2);
    assert_eq!(routes.metadata.generated, 1_700_000_000);
    assert_eq!(routes.metadata.valid, 1_700_604_800);
    assert_eq!(CACHE_EXPIRY, 604_800);
    assert_eq!(routes.roas.len(), 2);
}
