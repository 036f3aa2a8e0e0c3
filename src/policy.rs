//! Ordered permit/deny rules over prefixes, read from line-oriented text, and
//! first-match lookup.
use vstd::prelude::*;
use crate::addr::IpAddress;
use crate::cidr::{Cidr, cidr_of, covers};
use crate::text::{decimal_u8, is_digit, split_on, views, words, split_bytes, split_words, parse_u8};

verus! {

/// What a rule decides for the addresses it covers.
#[derive(PartialEq, Eq, Structural, Clone, Copy, Debug)]
pub enum Verdict {
    Permit,
    Deny,
}

/// A prefix, a verdict, and the bounds that a permitted entry's maximum
/// length is held to.
#[derive(PartialEq, Eq, Structural, Clone, Copy, Debug)]
pub struct PolicyRule {
    pub cidr: Cidr,
    pub verdict: Verdict,
    pub min_len: u8,
    pub max_len: u8,
}

impl PolicyRule {
    pub open spec fn wf(self) -> bool {
        self.cidr.wf()
    }
}

pub open spec fn all_wf(rules: Seq<PolicyRule>) -> bool {
    forall|i: int| 0 <= i < rules.len() ==> #[trigger] rules[i].wf()
}

/// The verdict a word names: exactly `permit` or `deny`.
pub open spec fn verdict_of(w: Seq<u8>) -> Option<Verdict> {
    if w == seq![0x70u8, 0x65u8, 0x72u8, 0x6Du8, 0x69u8, 0x74u8] {
        Some(Verdict::Permit)
    } else if w == seq![0x64u8, 0x65u8, 0x6Eu8, 0x79u8] {
        Some(Verdict::Deny)
    } else {
        None
    }
}

/// The rule that one line of policy text declares: a line that starts with a
/// digit, whose second to fifth words are the verdict, the prefix, and the
/// minimum and maximum length. Any other line declares none.
pub open spec fn rule_of_line(line: Seq<u8>) -> Option<PolicyRule> {
    let w = words(line);
    if line.len() > 0 && is_digit(line[0]) && w.len() >= 5 && verdict_of(w[1]) is Some
        && cidr_of(w[2]) is Ok && decimal_u8(w[3]) is Some && decimal_u8(w[4]) is Some {
        Some(
            PolicyRule {
                cidr: cidr_of(w[2])->Ok_0,
                verdict: verdict_of(w[1]).unwrap(),
                min_len: decimal_u8(w[3]).unwrap(),
                max_len: decimal_u8(w[4]).unwrap(),
            },
        )
    } else {
        None
    }
}

/// The rules that the lines declare, in line order.
pub open spec fn rules_of_lines(ls: Seq<Seq<u8>>) -> Seq<PolicyRule>
    decreases ls.len(),
{
    if ls.len() == 0 {
        Seq::<PolicyRule>::empty()
    } else {
        let prev = rules_of_lines(ls.drop_last());
        match rule_of_line(ls.last()) {
            Some(r) => prev.push(r),
            None => prev,
        }
    }
}

/// The rules that a policy text declares, in line order.
pub open spec fn rules_of_text(text: Seq<u8>) -> Seq<PolicyRule> {
    rules_of_lines(split_on(text, 0x0Au8))
}

/// The first rule, in order, whose prefix covers `a`.
pub open spec fn first_match(rules: Seq<PolicyRule>, a: IpAddress) -> Option<PolicyRule>
    decreases rules.len(),
{
    if rules.len() == 0 {
        None
    } else if covers(rules[0].cidr, a) {
        Some(rules[0])
    } else {
        first_match(rules.subrange(1, rules.len() as int), a)
    }
}

fn is_word(w: &Vec<u8>, expect: &[u8]) -> (r: bool)
    ensures
        r == (w@ == expect@),
{
    if w.len() != expect.len() {
        return false;
    }
    let mut i: usize = 0;
    while i < w.len()
        invariant
            w@.len() == expect@.len(),
            i <= w@.len(),
            forall|k: int| 0 <= k < i ==> w@[k] == expect@[k],
        decreases w@.len() - i,
    {
        if w[i] != expect[i] {
            return false;
        }
        i = i + 1;
    }
    assert(w@ =~= expect@);
    true
}

/// Reads the rule that one line of policy text declares, if any.
pub fn parse_rule_line(line: &[u8]) -> (r: Option<PolicyRule>)
    ensures
        r == rule_of_line(line@),
        r matches Some(rule) ==> rule.wf(),
{
    if line.len() == 0 || line[0] < 0x30u8 || line[0] > 0x39u8 {
        return None;
    }
    let w = split_words(line);
    if w.len() < 5 {
        return None;
    }
    proof {
        assert(views(w@)[1] == w@[1]@);
        assert(views(w@)[2] == w@[2]@);
        assert(views(w@)[3] == w@[3]@);
        assert(views(w@)[4] == w@[4]@);
    }
    let permit: [u8; 6] = [0x70u8, 0x65u8, 0x72u8, 0x6Du8, 0x69u8, 0x74u8];
    let deny: [u8; 4] = [0x64u8, 0x65u8, 0x6Eu8, 0x79u8];
    let verdict = if is_word(&w[1], permit.as_slice()) {
        assert(permit@ =~= seq![0x70u8, 0x65u8, 0x72u8, 0x6Du8, 0x69u8, 0x74u8]);
        Verdict::Permit
    } else if is_word(&w[1], deny.as_slice()) {
        assert(permit@ =~= seq![0x70u8, 0x65u8, 0x72u8, 0x6Du8, 0x69u8, 0x74u8]);
        assert(deny@ =~= seq![0x64u8, 0x65u8, 0x6Eu8, 0x79u8]);
        Verdict::Deny
    } else {
        assert(permit@ =~= seq![0x70u8, 0x65u8, 0x72u8, 0x6Du8, 0x69u8, 0x74u8]);
        assert(deny@ =~= seq![0x64u8, 0x65u8, 0x6Eu8, 0x79u8]);
        return None;
    };
    let cidr = match Cidr::parse(w[2].as_slice()) {
        Ok(c) => c,
        Err(_) => return None,
    };
    let min_len = match parse_u8(w[3].as_slice()) {
        Some(v) => v,
        None => return None,
    };
    let max_len = match parse_u8(w[4].as_slice()) {
        Some(v) => v,
        None => return None,
    };
    Some(PolicyRule { cidr, verdict, min_len, max_len })
}

/// Appends, in line order, the rules that a policy text declares; lines that
/// declare none are passed over.
pub fn add_policy_rules(rules: &mut Vec<PolicyRule>, text: &[u8])
    ensures
        final(rules)@ == old(rules)@ + rules_of_text(text@),
        all_wf(old(rules)@) ==> all_wf(final(rules)@),
{
    let lines = split_bytes(text, 0x0Au8);
    let ghost ls = split_on(text@, 0x0Au8);
    let ghost start = rules@;
    let mut i: usize = 0;
    assert(ls.subrange(0, 0) =~= Seq::<Seq<u8>>::empty());
    assert(rules@ =~= start + rules_of_lines(ls.subrange(0, 0)));
    while i < lines.len()
        invariant
            views(lines@) == ls,
            i <= lines@.len(),
            rules@ == start + rules_of_lines(ls.subrange(0, i as int)),
            all_wf(start) ==> all_wf(rules@),
        decreases lines@.len() - i,
    {
        assert(views(lines@)[i as int] == lines@[i as int]@);
        let ghost pre = ls.subrange(0, i as int);
        let ghost next = ls.subrange(0, i + 1);
        assert(next.drop_last() =~= pre);
        match parse_rule_line(lines[i].as_slice()) {
            Some(r) => {
                rules.push(r);
                assert(rules@ =~= start + rules_of_lines(next));
            },
            None => {},
        }
        i = i + 1;
    }
    assert(ls.subrange(0, ls.len() as int) =~= ls);
}

/// The rules that a policy text declares, in line order.
pub fn parse_policy(text: &[u8]) -> (r: Vec<PolicyRule>)
    ensures
        r@ == rules_of_text(text@),
        all_wf(r@),
{
    let mut rules: Vec<PolicyRule> = Vec::new();
    add_policy_rules(&mut rules, text);
    assert(rules@ =~= Seq::<PolicyRule>::empty() + rules_of_text(text@));
    rules
}

/// The first rule, in order, whose prefix covers `a`, whatever the rules
/// after it say.
pub fn match_rule(rules: &Vec<PolicyRule>, a: &IpAddress) -> (r: Option<PolicyRule>)
    requires
        all_wf(rules@),
    ensures
        r == first_match(rules@, *a),
{
    let mut i: usize = 0;
    assert(rules@.subrange(0, rules@.len() as int) =~= rules@);
    while i < rules.len()
        invariant
            all_wf(rules@),
            i <= rules@.len(),
            first_match(rules@.subrange(i as int, rules@.len() as int), *a) == first_match(rules@, *a),
        decreases rules@.len() - i,
    {
        let ghost rest = rules@.subrange(i as int, rules@.len() as int);
        assert(rest[0] == rules@[i as int]);
        assert(rest.subrange(1, rest.len() as int) =~= rules@.subrange(i + 1, rules@.len() as int));
        assert(rules@[i as int].wf());
        if rules[i].cidr.contains(a) {
            return Some(rules[i]);
        }
        i = i + 1;
    }
    None
}

/// Rule `i` is the first, in order, whose prefix covers `a`.
pub open spec fn is_first_cover(rules: Seq<PolicyRule>, a: IpAddress, i: int) -> bool {
    0 <= i < rules.len() && covers(rules[i].cidr, a) && forall|j: int|
        0 <= j < i ==> !covers(#[trigger] rules[j].cidr, a)
}

proof fn lemma_first_at(rules: Seq<PolicyRule>, a: IpAddress, i: int)
    requires
        is_first_cover(rules, a, i),
    ensures
        first_match(rules, a) == Some(rules[i]),
    decreases i,
{
    if i > 0 {
        let rest = rules.subrange(1, rules.len() as int);
        assert(!covers(rules[0].cidr, a));
        assert(rest[i - 1] == rules[i]);
        assert forall|j: int| 0 <= j < i - 1 implies !covers(#[trigger] rest[j].cidr, a) by {
            assert(rest[j] == rules[j + 1]);
        }
        lemma_first_at(rest, a, i - 1);
    }
}

proof fn lemma_found_is_first(rules: Seq<PolicyRule>, a: IpAddress)
    ensures
        first_match(rules, a) is Some ==> exists|i: int|
            is_first_cover(rules, a, i) && first_match(rules, a) == Some(#[trigger] rules[i]),
        first_match(rules, a) is None ==> forall|j: int|
            0 <= j < rules.len() ==> !covers(#[trigger] rules[j].cidr, a),
    decreases rules.len(),
{
    if rules.len() > 0 {
        let rest = rules.subrange(1, rules.len() as int);
        lemma_found_is_first(rest, a);
        if covers(rules[0].cidr, a) {
            assert(is_first_cover(rules, a, 0));
        } else if first_match(rest, a) is Some {
            let i = choose|i: int|
                is_first_cover(rest, a, i) && first_match(rest, a) == Some(#[trigger] rest[i]);
            assert(rest[i] == rules[i + 1]);
            assert forall|j: int| 0 <= j < i + 1 implies !covers(#[trigger] rules[j].cidr, a) by {
                if j > 0 {
                    assert(rest[j - 1] == rules[j]);
                }
            }
            assert(is_first_cover(rules, a, i + 1));
        } else {
            assert forall|j: int| 0 <= j < rules.len() implies !covers(#[trigger] rules[j].cidr, a) by {
                if j > 0 {
                    assert(rest[j - 1] == rules[j]);
                }
            }
        }
    }
}

proof fn lemma_none_found(rules: Seq<PolicyRule>, a: IpAddress)
    requires
        forall|j: int| 0 <= j < rules.len() ==> !covers(#[trigger] rules[j].cidr, a),
    ensures
        first_match(rules, a) is None,
    decreases rules.len(),
{
    if rules.len() > 0 {
        let rest = rules.subrange(1, rules.len() as int);
        assert(!covers(rules[0].cidr, a));
        assert forall|j: int| 0 <= j < rest.len() implies !covers(#[trigger] rest[j].cidr, a) by {
            assert(rest[j] == rules[j + 1]);
        }
        lemma_none_found(rest, a);
    }
}

/// The rule found for an address is the first one, in order, whose prefix
/// covers it: a rule that covers it is found when no earlier one does, and is
/// otherwise passed over for an earlier covering rule, never a later one.
pub proof fn lemma_first_match_is_first(rules: Seq<PolicyRule>, a: IpAddress, i: int)
    requires
        0 <= i < rules.len(),
        covers(rules[i].cidr, a),
    ensures
        (forall|j: int| 0 <= j < i ==> !covers(#[trigger] rules[j].cidr, a)) ==> first_match(
            rules,
            a,
        ) == Some(rules[i]),
        exists|k: int| 0 <= k <= i && is_first_cover(rules, a, k) && first_match(rules, a) == Some(#[trigger] rules[k]),
{
    if forall|j: int| 0 <= j < i ==> !covers(#[trigger] rules[j].cidr, a) {
        lemma_first_at(rules, a, i);
    }
    lemma_found_is_first(rules, a);
    let k = choose|k: int| is_first_cover(rules, a, k) && first_match(rules, a) == Some(#[trigger] rules[k]);
    if k > i {
        assert(!covers(rules[i].cidr, a));
    }
}

/// No rule is found for an address exactly when no rule's prefix covers it.
pub proof fn lemma_no_match_iff_uncovered(rules: Seq<PolicyRule>, a: IpAddress)
    ensures
        first_match(rules, a) is None <==> forall|j: int|
            0 <= j < rules.len() ==> !covers(#[trigger] rules[j].cidr, a),
{
    lemma_found_is_first(rules, a);
    if forall|j: int| 0 <= j < rules.len() ==> !covers(#[trigger] rules[j].cidr, a) {
        lemma_none_found(rules, a);
    }
}

/// Exchanging two neighbouring rules that do not both cover an address
/// leaves the rule found for that address unchanged.
pub proof fn lemma_swap_disjoint_neighbours(rules: Seq<PolicyRule>, a: IpAddress, i: int)
    requires
        0 <= i,
        i + 1 < rules.len(),
        !(covers(rules[i].cidr, a) && covers(rules[i + 1].cidr, a)),
    ensures
        first_match(rules.update(i, rules[i + 1]).update(i + 1, rules[i]), a) == first_match(
            rules,
            a,
        ),
{
    let s2 = rules.update(i, rules[i + 1]).update(i + 1, rules[i]);
    lemma_found_is_first(rules, a);
    if first_match(rules, a) is None {
        assert forall|j: int| 0 <= j < s2.len() implies !covers(#[trigger] s2[j].cidr, a) by {
            if j == i {
                assert(!covers(rules[i + 1].cidr, a));
            } else if j == i + 1 {
                assert(!covers(rules[i].cidr, a));
            } else {
                assert(s2[j] == rules[j]);
                assert(!covers(rules[j].cidr, a));
            }
        }
        lemma_none_found(s2, a);
    } else {
        let k = choose|k: int| is_first_cover(rules, a, k) && first_match(rules, a) == Some(#[trigger] rules[k]);
        let k2 = if k == i { i + 1 } else if k == i + 1 { i } else { k };
        assert(s2[k2] == rules[k]);
        assert forall|j: int| 0 <= j < k2 implies !covers(#[trigger] s2[j].cidr, a) by {
            if j == i {
                assert(s2[j] == rules[i + 1]);
            } else if j == i + 1 {
                assert(s2[j] == rules[i]);
            } else {
                assert(s2[j] == rules[j]);
            }
        }
        lemma_first_at(s2, a, k2);
    }
}

} // verus!
