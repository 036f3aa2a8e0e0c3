//! Route objects: the attributes that a free-text registry record declares.
use vstd::prelude::*;
use crate::text::{
    ascii_lower, ascii_upper, decimal_u8, is_space, split_on, views, words, split_bytes,
    split_words, to_ascii_lower, to_ascii_upper, parse_u8,
};

verus! {

/// The attributes of a route object: the prefix text, the origin AS
/// numbers in declaration order, and the maximum length if one is given.
#[derive(Clone, Debug)]
pub struct Record {
    pub prefix: Vec<u8>,
    pub origins: Vec<Vec<u8>>,
    pub max_length: Option<u8>,
}

/// Why a route object yields no record.
#[derive(PartialEq, Eq, Structural, Clone, Copy, Debug)]
pub enum RecordError {
    /// A `max-length:` value is no byte-sized decimal.
    MaxLength,
    /// No `route:` or `route6:` attribute is given.
    MissingRoute,
}

/// What the lines read so far declare.
pub struct Scan {
    pub prefix: Option<Seq<u8>>,
    pub origins: Seq<Seq<u8>>,
    pub max_length: Option<u8>,
    pub bad_max_length: bool,
}

pub open spec fn route_key() -> Seq<u8> {
    seq![0x72u8, 0x6Fu8, 0x75u8, 0x74u8, 0x65u8, 0x3Au8]
}

pub open spec fn route6_key() -> Seq<u8> {
    seq![0x72u8, 0x6Fu8, 0x75u8, 0x74u8, 0x65u8, 0x36u8, 0x3Au8]
}

pub open spec fn origin_key() -> Seq<u8> {
    seq![0x6Fu8, 0x72u8, 0x69u8, 0x67u8, 0x69u8, 0x6Eu8, 0x3Au8]
}

pub open spec fn max_length_key() -> Seq<u8> {
    seq![0x6Du8, 0x61u8, 0x78u8, 0x2Du8, 0x6Cu8, 0x65u8, 0x6Eu8, 0x67u8, 0x74u8, 0x68u8, 0x3Au8]
}

/// `s` after reading one more line. A line that starts with a space, or
/// has fewer than two words, is passed over; otherwise its words, made
/// lower case, are an attribute name and a value. `route:` and `route6:` set
/// the prefix, `origin:` adds an AS number in capitals, `max-length:` sets
/// the maximum length or marks the record as malformed.
pub open spec fn scan_line(s: Scan, line: Seq<u8>) -> Scan {
    let w = words(ascii_lower(line));
    if (line.len() > 0 && is_space(line[0])) || w.len() < 2 {
        s
    } else if w[0] == route_key() || w[0] == route6_key() {
        Scan { prefix: Some(w[1]), ..s }
    } else if w[0] == origin_key() {
        Scan { origins: s.origins.push(ascii_upper(w[1])), ..s }
    } else if w[0] == max_length_key() {
        match decimal_u8(w[1]) {
            Some(v) => Scan { max_length: Some(v), ..s },
            None => Scan { bad_max_length: true, ..s },
        }
    } else {
        s
    }
}

/// What the lines declare, read in order.
pub open spec fn scan_lines(ls: Seq<Seq<u8>>) -> Scan
    decreases ls.len(),
{
    if ls.len() == 0 {
        Scan { prefix: None, origins: Seq::empty(), max_length: None, bad_max_length: false }
    } else {
        scan_line(scan_lines(ls.drop_last()), ls.last())
    }
}

/// What the text of a route object declares.
pub open spec fn scan_text(text: Seq<u8>) -> Scan {
    scan_lines(split_on(text, 0x0Au8))
}

proof fn lemma_bad_stays(ls: Seq<Seq<u8>>, k: int)
    requires
        0 <= k <= ls.len(),
        scan_lines(ls.subrange(0, k)).bad_max_length,
    ensures
        scan_lines(ls).bad_max_length,
    decreases ls.len() - k,
{
    if k < ls.len() {
        assert(ls.subrange(0, k + 1).drop_last() =~= ls.subrange(0, k));
        lemma_bad_stays(ls, k + 1);
    } else {
        assert(ls.subrange(0, k) =~= ls);
    }
}

fn same_bytes(w: &Vec<u8>, expect: &[u8]) -> (r: bool)
    ensures
        r == (w@ == expect@),
{
    if w.len() != expect.len() {
        return false;
    }
    let mut i: usize = 0;
    while i < w.len()
        invariant
            w@.len() == expect@.len(),
            i <= w@.len(),
            forall|k: int| 0 <= k < i ==> w@[k] == expect@[k],
        decreases w@.len() - i,
    {
        if w[i] != expect[i] {
            return false;
        }
        i = i + 1;
    }
    assert(w@ =~= expect@);
    true
}

/// Reads the attributes of a route object. A malformed `max-length:` value
/// fails the whole record, as does the absence of a route attribute.
pub fn parse_record(text: &[u8]) -> (r: Result<Record, RecordError>)
    ensures
        match r {
            Ok(rec) => !scan_text(text@).bad_max_length && scan_text(text@).prefix == Some(
                rec.prefix@,
            ) && views(rec.origins@) == scan_text(text@).origins && rec.max_length == scan_text(
                text@,
            ).max_length,
            Err(RecordError::MaxLength) => scan_text(text@).bad_max_length,
            Err(RecordError::MissingRoute) => !scan_text(text@).bad_max_length && scan_text(
                text@,
            ).prefix is None,
        },
{
    let route: [u8; 6] = [0x72u8, 0x6Fu8, 0x75u8, 0x74u8, 0x65u8, 0x3Au8];
    let route6: [u8; 7] = [0x72u8, 0x6Fu8, 0x75u8, 0x74u8, 0x65u8, 0x36u8, 0x3Au8];
    let origin: [u8; 7] = [0x6Fu8, 0x72u8, 0x69u8, 0x67u8, 0x69u8, 0x6Eu8, 0x3Au8];
    let max_key: [u8; 11] = [
        0x6Du8, 0x61u8, 0x78u8, 0x2Du8, 0x6Cu8, 0x65u8, 0x6Eu8, 0x67u8, 0x74u8, 0x68u8, 0x3Au8,
    ];
    assert(route@ =~= route_key());
    assert(route6@ =~= route6_key());
    assert(origin@ =~= origin_key());
    assert(max_key@ =~= max_length_key());
    let lines = split_bytes(text, 0x0Au8);
    let ghost ls = split_on(text@, 0x0Au8);
    let mut prefix: Option<Vec<u8>> = None;
    let mut origins: Vec<Vec<u8>> = Vec::new();
    let mut max_length: Option<u8> = None;
    let mut i: usize = 0;
    assert(ls.subrange(0, 0) =~= Seq::<Seq<u8>>::empty());
    assert(views(origins@) =~= Seq::<Seq<u8>>::empty());
    while i < lines.len()
        invariant
            views(lines@) == ls,
            ls == split_on(text@, 0x0Au8),
            i <= lines@.len(),
            route@ == route_key(),
            route6@ == route6_key(),
            origin@ == origin_key(),
            max_key@ == max_length_key(),
            !scan_lines(ls.subrange(0, i as int)).bad_max_length,
            scan_lines(ls.subrange(0, i as int)).prefix == match prefix {
                Some(p) => Some(p@),
                None => None::<Seq<u8>>,
            },
            scan_lines(ls.subrange(0, i as int)).origins == views(origins@),
            scan_lines(ls.subrange(0, i as int)).max_length == max_length,
        decreases lines@.len() - i,
    {
        assert(views(lines@)[i as int] == lines@[i as int]@);
        let ghost pre = ls.subrange(0, i as int);
        let ghost next = ls.subrange(0, i + 1);
        assert(next.drop_last() =~= pre);
        assert(next.last() == lines@[i as int]@);
        let line = lines[i].as_slice();
        let starts_with_space = line.len() > 0 && (line[0] == 0x20u8 || line[0] == 0x09u8
            || line[0] == 0x0Au8 || line[0] == 0x0Bu8 || line[0] == 0x0Cu8 || line[0] == 0x0Du8);
        if !starts_with_space {
            let lower = to_ascii_lower(line);
            let w = split_words(lower.as_slice());
            if w.len() >= 2 {
                assert(views(w@)[0] == w@[0]@);
                assert(views(w@)[1] == w@[1]@);
                if same_bytes(&w[0], route.as_slice()) || same_bytes(&w[0], route6.as_slice()) {
                    prefix = Some(w[1].clone());
                } else if same_bytes(&w[0], origin.as_slice()) {
                    let ghost before = views(origins@);
                    origins.push(to_ascii_upper(w[1].as_slice()));
                    assert(views(origins@) =~= before.push(origins@.last()@));
                } else if same_bytes(&w[0], max_key.as_slice()) {
                    match parse_u8(w[1].as_slice()) {
                        Some(v) => {
                            max_length = Some(v);
                        },
                        None => {
                            proof {
                                lemma_bad_stays(ls, i + 1);
                            }
                            return Err(RecordError::MaxLength);
                        },
                    }
                }
            }
        }
        i = i + 1;
    }
    assert(ls.subrange(0, ls.len() as int) =~= ls);
    match prefix {
        Some(p) => Ok(Record { prefix: p, origins, max_length }),
        None => Err(RecordError::MissingRoute),
    }
}

} // verus!
