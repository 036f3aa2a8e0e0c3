//! From a route object and the policy rules to ROA entries.
use vstd::prelude::*;
use crate::cidr::{Cidr, CidrError, cidr_of};
use crate::policy::{PolicyRule, Verdict, all_wf, first_match};
use crate::record::{Record, RecordError, parse_record, scan_text};
use crate::text::views;

verus! {

/// One authorization: `asn` may originate `prefix` and any of its
/// sub-prefixes up to `max_length` bits.
#[derive(Clone, Debug)]
pub struct RoaEntry {
    pub prefix: Vec<u8>,
    pub max_length: u8,
    pub asn: Vec<u8>,
}

impl RoaEntry {
    pub open spec fn model(&self) -> (Seq<u8>, u8, Seq<u8>) {
        (self.prefix@, self.max_length, self.asn@)
    }
}

pub open spec fn entry_views(v: Seq<RoaEntry>) -> Seq<(Seq<u8>, u8, Seq<u8>)> {
    Seq::new(v.len(), |i: int| v[i].model())
}

/// Why a record cannot be resolved.
#[derive(PartialEq, Eq, Structural, Clone, Copy, Debug)]
pub enum ResolveError {
    /// The record's prefix text is no prefix.
    Prefix(CidrError),
    /// No policy rule covers the record's address.
    NoPolicy,
}

/// Why a route object contributes no entries through failure.
#[derive(PartialEq, Eq, Structural, Clone, Copy, Debug)]
pub enum EntryError {
    Record(RecordError),
    Resolve(ResolveError),
}

/// The maximum length that a permitting rule grants: the record's own,
/// raised to the rule's minimum or lowered to its maximum, or the rule's
/// maximum where the record gives none.
pub open spec fn effective_max(rule: PolicyRule, requested: Option<u8>) -> u8 {
    match requested {
        None => rule.max_len,
        Some(v) => if v > rule.max_len {
            rule.max_len
        } else if v < rule.min_len {
            rule.min_len
        } else {
            v
        },
    }
}

/// The entries that a record with the given prefix text, origins and
/// requested maximum length receives under `rules`.
pub open spec fn resolution(
    prefix: Seq<u8>,
    origins: Seq<Seq<u8>>,
    requested: Option<u8>,
    rules: Seq<PolicyRule>,
) -> Result<Seq<(Seq<u8>, u8, Seq<u8>)>, ResolveError> {
    match cidr_of(prefix) {
        Err(e) => Err(ResolveError::Prefix(e)),
        Ok(c) => match first_match(rules, c.addr) {
            None => Err(ResolveError::NoPolicy),
            Some(rule) => if rule.verdict == Verdict::Deny {
                Ok(Seq::empty())
            } else if c.len > effective_max(rule, requested) {
                Ok(Seq::empty())
            } else {
                Ok(
                    Seq::new(
                        origins.len(),
                        |i: int| (prefix, effective_max(rule, requested), origins[i]),
                    ),
                )
            },
        },
    }
}

fn copy_bytes(v: &Vec<u8>) -> (r: Vec<u8>)
    ensures
        r@ == v@,
{
    let r = v.clone();
    assert(r@ =~= v@);
    r
}

/// The maximum length that a permitting rule grants to a record that asks
/// for `requested`.
pub fn effective_max_length(rule: &PolicyRule, requested: Option<u8>) -> (r: u8)
    ensures
        r == effective_max(*rule, requested),
{
    match requested {
        None => rule.max_len,
        Some(v) => if v > rule.max_len {
            rule.max_len
        } else if v < rule.min_len {
            rule.min_len
        } else {
            v
        },
    }
}

/// The entries of a record: one per origin, in order, all with the record's
/// prefix text and the granted maximum length; none where the covering rule
/// denies or the prefix is longer than granted; an error where the prefix is
/// malformed or no rule covers it.
pub fn resolve(record: &Record, rules: &Vec<PolicyRule>) -> (r: Result<Vec<RoaEntry>, ResolveError>)
    requires
        all_wf(rules@),
    ensures
        match r {
            Ok(v) => resolution(record.prefix@, views(record.origins@), record.max_length, rules@)
                == Ok::<Seq<(Seq<u8>, u8, Seq<u8>)>, ResolveError>(entry_views(v@)),
            Err(e) => resolution(record.prefix@, views(record.origins@), record.max_length, rules@)
                == Err::<Seq<(Seq<u8>, u8, Seq<u8>)>, ResolveError>(e),
        },
{
    let empty: Vec<RoaEntry> = Vec::new();
    assert(entry_views(empty@) =~= Seq::<(Seq<u8>, u8, Seq<u8>)>::empty());
    let c = match Cidr::parse(record.prefix.as_slice()) {
        Ok(c) => c,
        Err(e) => return Err(ResolveError::Prefix(e)),
    };
    let rule = match crate::policy::match_rule(rules, &c.addr) {
        Some(rule) => rule,
        None => return Err(ResolveError::NoPolicy),
    };
    if rule.verdict == Verdict::Deny {
        return Ok(empty);
    }
    let max_length = effective_max_length(&rule, record.max_length);
    if c.len > max_length {
        return Ok(empty);
    }
    let ghost origins = views(record.origins@);
    let ghost want = Seq::new(
        origins.len(),
        |i: int| (record.prefix@, max_length, origins[i]),
    );
    let mut out: Vec<RoaEntry> = Vec::new();
    let mut i: usize = 0;
    while i < record.origins.len()
        invariant
            origins == views(record.origins@),
            want == Seq::new(origins.len(), |i: int| (record.prefix@, max_length, origins[i])),
            i <= record.origins@.len(),
            entry_views(out@) =~= want.subrange(0, i as int),
        decreases record.origins@.len() - i,
    {
        assert(origins[i as int] == record.origins@[i as int]@);
        let ghost before = entry_views(out@);
        let e = RoaEntry { prefix: copy_bytes(&record.prefix), max_length, asn: copy_bytes(&record.origins[i]) };
        assert(e.model() == want[i as int]);
        out.push(e);
        assert(entry_views(out@) =~= before.push(want[i as int]));
        i = i + 1;
        assert(entry_views(out@) =~= want.subrange(0, i as int));
    }
    assert(want.subrange(0, want.len() as int) =~= want);
    Ok(out)
}

/// The entries of a route object's text under `rules`, or why it has none
/// through failure.
pub open spec fn entries_of_text(text: Seq<u8>, rules: Seq<PolicyRule>) -> Result<
    Seq<(Seq<u8>, u8, Seq<u8>)>,
    EntryError,
> {
    let s = scan_text(text);
    if s.bad_max_length {
        Err(EntryError::Record(RecordError::MaxLength))
    } else if s.prefix is None {
        Err(EntryError::Record(RecordError::MissingRoute))
    } else {
        match resolution(s.prefix.unwrap(), s.origins, s.max_length, rules) {
            Ok(v) => Ok(v),
            Err(e) => Err(EntryError::Resolve(e)),
        }
    }
}

/// Reads a route object and resolves it against `rules`.
pub fn process_entry(text: &[u8], rules: &Vec<PolicyRule>) -> (r: Result<Vec<RoaEntry>, EntryError>)
    requires
        all_wf(rules@),
    ensures
        match r {
            Ok(v) => entries_of_text(text@, rules@) == Ok::<
                Seq<(Seq<u8>, u8, Seq<u8>)>,
                EntryError,
            >(entry_views(v@)),
            Err(e) => entries_of_text(text@, rules@) == Err::<
                Seq<(Seq<u8>, u8, Seq<u8>)>,
                EntryError,
            >(e),
        },
{
    let record = match parse_record(text) {
        Ok(rec) => rec,
        Err(e) => return Err(EntryError::Record(e)),
    };
    match resolve(&record, rules) {
        Ok(v) => Ok(v),
        Err(e) => Err(EntryError::Resolve(e)),
    }
}

/// The entries of a sequence of route objects, in order; a route object
/// that fails contributes none.
pub open spec fn entries_of_texts(texts: Seq<Seq<u8>>, rules: Seq<PolicyRule>) -> Seq<
    (Seq<u8>, u8, Seq<u8>),
>
    decreases texts.len(),
{
    if texts.len() == 0 {
        Seq::empty()
    } else {
        entries_of_texts(texts.drop_last(), rules) + match entries_of_text(texts.last(), rules) {
            Ok(v) => v,
            Err(_) => Seq::empty(),
        }
    }
}

/// Appends the entries of each route object, in order, passing over those
/// that fail.
pub fn process_directory(roas: &mut Vec<RoaEntry>, texts: &Vec<Vec<u8>>, rules: &Vec<PolicyRule>)
    requires
        all_wf(rules@),
    ensures
        entry_views(final(roas)@) == entry_views(old(roas)@) + entries_of_texts(views(texts@), rules@),
{
    let ghost start = entry_views(roas@);
    let ghost ts = views(texts@);
    let mut i: usize = 0;
    assert(ts.subrange(0, 0) =~= Seq::<Seq<u8>>::empty());
    assert(entry_views(roas@) =~= start + entries_of_texts(ts.subrange(0, 0), rules@));
    while i < texts.len()
        invariant
            ts == views(texts@),
            all_wf(rules@),
            i <= texts@.len(),
            entry_views(roas@) == start + entries_of_texts(ts.subrange(0, i as int), rules@),
        decreases texts@.len() - i,
    {
        assert(ts[i as int] == texts@[i as int]@);
        let ghost pre = ts.subrange(0, i as int);
        let ghost next = ts.subrange(0, i + 1);
        assert(next.drop_last() =~= pre);
        match process_entry(texts[i].as_slice(), rules) {
            Ok(v) => {
                let mut j: usize = 0;
                let ghost mid = entry_views(roas@);
                while j < v.len()
                    invariant
                        j <= v@.len(),
                        entry_views(roas@) =~= mid + entry_views(v@).subrange(0, j as int),
                    decreases v@.len() - j,
                {
                    let ghost before = entry_views(roas@);
                    let e = RoaEntry {
                        prefix: copy_bytes(&v[j].prefix),
                        max_length: v[j].max_length,
                        asn: copy_bytes(&v[j].asn),
                    };
                    assert(e.model() == entry_views(v@)[j as int]);
                    roas.push(e);
                    assert(entry_views(roas@) =~= before.push(e.model()));
                    j = j + 1;
                    assert(entry_views(roas@) =~= mid + entry_views(v@).subrange(0, j as int));
                }
                assert(entry_views(v@).subrange(0, v@.len() as int) =~= entry_views(v@));
                assert(entry_views(roas@) =~= start + entries_of_texts(next, rules@));
            },
            Err(_) => {
                assert(entry_views(roas@) =~= start + entries_of_texts(next, rules@));
            },
        }
        i = i + 1;
    }
    assert(ts.subrange(0, ts.len() as int) =~= ts);
}

/// A record whose address the first covering rule denies receives no
/// entries, and no error.
pub proof fn lemma_deny_gives_no_entries(
    prefix: Seq<u8>,
    origins: Seq<Seq<u8>>,
    requested: Option<u8>,
    rules: Seq<PolicyRule>,
)
    requires
        cidr_of(prefix) is Ok,
        first_match(rules, (cidr_of(prefix)->Ok_0).addr) matches Some(rule) && rule.verdict
            == Verdict::Deny,
    ensures
        resolution(prefix, origins, requested, rules) == Ok::<
            Seq<(Seq<u8>, u8, Seq<u8>)>,
            ResolveError,
        >(Seq::empty()),
{
}

/// A record whose address no rule covers fails with `NoPolicy`.
pub proof fn lemma_uncovered_fails(
    prefix: Seq<u8>,
    origins: Seq<Seq<u8>>,
    requested: Option<u8>,
    rules: Seq<PolicyRule>,
)
    requires
        cidr_of(prefix) is Ok,
        forall|j: int|
            0 <= j < rules.len() ==> !crate::cidr::covers(
                #[trigger] rules[j].cidr,
                (cidr_of(prefix)->Ok_0).addr,
            ),
    ensures
        resolution(prefix, origins, requested, rules) == Err::<
            Seq<(Seq<u8>, u8, Seq<u8>)>,
            ResolveError,
        >(ResolveError::NoPolicy),
{
    crate::policy::lemma_no_match_iff_uncovered(rules, (cidr_of(prefix)->Ok_0).addr);
}

/// With sound bounds, the granted maximum length lies within them, and a
/// requested length within them is granted as it is.
pub proof fn lemma_effective_max_within_bounds(rule: PolicyRule, requested: Option<u8>)
    requires
        rule.min_len <= rule.max_len,
    ensures
        rule.min_len <= effective_max(rule, requested) <= rule.max_len,
        requested is Some && rule.min_len <= requested.unwrap() <= rule.max_len ==> effective_max(
            rule,
            requested,
        ) == requested.unwrap(),
        requested is None ==> effective_max(rule, requested) == rule.max_len,
{
}

/// A prefix longer than the granted maximum length receives no entries.
pub proof fn lemma_too_specific_gives_no_entries(
    prefix: Seq<u8>,
    origins: Seq<Seq<u8>>,
    requested: Option<u8>,
    rules: Seq<PolicyRule>,
)
    requires
        cidr_of(prefix) is Ok,
        first_match(rules, (cidr_of(prefix)->Ok_0).addr) matches Some(rule) && (cidr_of(
            prefix,
        )->Ok_0).len > effective_max(rule, requested),
    ensures
        resolution(prefix, origins, requested, rules) == Ok::<
            Seq<(Seq<u8>, u8, Seq<u8>)>,
            ResolveError,
        >(Seq::empty()),
{
}

/// A permitted record with `n` origins receives `n` entries, all with its
/// prefix text and the granted maximum length, whose AS numbers are the
/// origins in declaration order.
pub proof fn lemma_one_entry_per_origin(
    prefix: Seq<u8>,
    origins: Seq<Seq<u8>>,
    requested: Option<u8>,
    rules: Seq<PolicyRule>,
)
    requires
        cidr_of(prefix) is Ok,
        first_match(rules, (cidr_of(prefix)->Ok_0).addr) matches Some(rule) && rule.verdict
            == Verdict::Permit && (cidr_of(prefix)->Ok_0).len <= effective_max(rule, requested),
    ensures
        resolution(prefix, origins, requested, rules) matches Ok(v) && v.len() == origins.len()
            && forall|i: int|
            0 <= i < v.len() ==> #[trigger] v[i] == (
                prefix,
                effective_max(
                    first_match(rules, (cidr_of(prefix)->Ok_0).addr).unwrap(),
                    requested,
                ),
                origins[i],
            ),
{
}

} // verus!
