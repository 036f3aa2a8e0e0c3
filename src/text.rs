//! Byte-level text helpers: line splitting, whitespace tokenizing, ASCII case
//! mapping and decimal parsing, each with a mathematical model.
use vstd::prelude::*;

verus! {

/// The bytes that separate words: ASCII space, tab, line feed, vertical tab,
/// form feed and carriage return.
pub open spec fn is_space(b: u8) -> bool {
    b == 0x20u8 || b == 0x09u8 || b == 0x0Au8 || b == 0x0Bu8 || b == 0x0Cu8 || b == 0x0Du8
}

pub open spec fn is_digit(b: u8) -> bool {
    0x30u8 <= b <= 0x39u8
}

/// `s` cut at every `sep`; the separators are dropped and empty pieces kept,
/// so the result always has one piece more than `s` has separators.
pub open spec fn split_on(s: Seq<u8>, sep: u8) -> Seq<Seq<u8>>
    decreases s.len(),
{
    if s.len() == 0 {
        seq![Seq::<u8>::empty()]
    } else {
        let prev = split_on(s.drop_last(), sep);
        if s.last() == sep {
            prev.push(Seq::<u8>::empty())
        } else {
            prev.update(prev.len() - 1, prev.last().push(s.last()))
        }
    }
}

/// The maximal runs of non-space bytes of `s`, in order.
pub open spec fn words(s: Seq<u8>) -> Seq<Seq<u8>>
    decreases s.len(),
{
    if s.len() == 0 {
        Seq::<Seq<u8>>::empty()
    } else {
        let prev = words(s.drop_last());
        if is_space(s.last()) {
            prev
        } else if s.len() > 1 && !is_space(s[s.len() - 2]) {
            prev.update(prev.len() - 1, prev.last().push(s.last()))
        } else {
            prev.push(seq![s.last()])
        }
    }
}

pub open spec fn lower_byte(b: u8) -> u8 {
    if 0x41u8 <= b <= 0x5Au8 {
        (b + 32) as u8
    } else {
        b
    }
}

pub open spec fn upper_byte(b: u8) -> u8 {
    if 0x61u8 <= b <= 0x7Au8 {
        (b - 32) as u8
    } else {
        b
    }
}

/// `s` with each ASCII capital letter replaced by its small letter.
pub open spec fn ascii_lower(s: Seq<u8>) -> Seq<u8> {
    Seq::new(s.len(), |i: int| lower_byte(s[i]))
}

/// `s` with each ASCII small letter replaced by its capital letter.
pub open spec fn ascii_upper(s: Seq<u8>) -> Seq<u8> {
    Seq::new(s.len(), |i: int| upper_byte(s[i]))
}

pub open spec fn all_digits(s: Seq<u8>) -> bool {
    forall|i: int| 0 <= i < s.len() ==> is_digit(#[trigger] s[i])
}

/// The number written by the decimal digits `s`, most significant first.
pub open spec fn digits_value(s: Seq<u8>) -> nat
    decreases s.len(),
{
    if s.len() == 0 {
        0
    } else {
        digits_value(s.drop_last()) * 10 + (s.last() - 0x30u8) as nat
    }
}

/// What a byte-sized unsigned decimal reads as: an optional `+`, then one or
/// more digits whose value is at most 255.
pub open spec fn decimal_u8(s: Seq<u8>) -> Option<u8> {
    let d = if s.len() > 0 && s[0] == 0x2Bu8 {
        s.subrange(1, s.len() as int)
    } else {
        s
    };
    if d.len() > 0 && all_digits(d) && digits_value(d) <= 255 {
        Some(digits_value(d) as u8)
    } else {
        None
    }
}

pub proof fn lemma_split_on_nonempty(s: Seq<u8>, sep: u8)
    ensures
        split_on(s, sep).len() >= 1,
    decreases s.len(),
{
    if s.len() > 0 {
        lemma_split_on_nonempty(s.drop_last(), sep);
    }
}

pub proof fn lemma_words_nonempty(s: Seq<u8>)
    requires
        s.len() > 0,
        !is_space(s.last()),
    ensures
        words(s).len() >= 1,
    decreases s.len(),
{
    if s.len() > 1 && !is_space(s[s.len() - 2]) {
        lemma_words_nonempty(s.drop_last());
    }
}

pub open spec fn views(v: Seq<Vec<u8>>) -> Seq<Seq<u8>> {
    Seq::new(v.len(), |i: int| v[i]@)
}

/// A copy of `s[lo..hi]`.
pub fn copy_range(s: &[u8], lo: usize, hi: usize) -> (r: Vec<u8>)
    requires
        lo <= hi <= s@.len(),
    ensures
        r@ == s@.subrange(lo as int, hi as int),
{
    let mut r: Vec<u8> = Vec::new();
    let mut i: usize = lo;
    while i < hi
        invariant
            lo <= i <= hi <= s@.len(),
            r@ == s@.subrange(lo as int, i as int),
        decreases hi - i,
    {
        r.push(s[i]);
        i = i + 1;
        assert(r@ =~= s@.subrange(lo as int, i as int));
    }
    r
}

/// Cuts `s` at every `sep`.
pub fn split_bytes(s: &[u8], sep: u8) -> (r: Vec<Vec<u8>>)
    ensures
        views(r@) == split_on(s@, sep),
{
    let mut pieces: Vec<Vec<u8>> = Vec::new();
    let mut cur: Vec<u8> = Vec::new();
    let mut i: usize = 0;
    assert(s@.subrange(0, 0) =~= Seq::<u8>::empty());
    assert(views(pieces@).push(cur@) =~= split_on(s@.subrange(0, 0), sep));
    while i < s.len()
        invariant
            i <= s@.len(),
            views(pieces@).push(cur@) == split_on(s@.subrange(0, i as int), sep),
        decreases s@.len() - i,
    {
        let b = s[i];
        let ghost pre = s@.subrange(0, i as int);
        let ghost next = s@.subrange(0, i + 1);
        assert(next.drop_last() =~= pre);
        assert(next.last() == b);
        proof {
            lemma_split_on_nonempty(pre, sep);
        }
        if b == sep {
            pieces.push(cur);
            cur = Vec::new();
            assert(views(pieces@).push(cur@) =~= split_on(pre, sep).push(Seq::<u8>::empty()));
        } else {
            let ghost old_pieces = views(pieces@);
            cur.push(b);
            assert(views(pieces@) =~= old_pieces);
            assert(views(pieces@).push(cur@) =~= split_on(pre, sep).update(
                split_on(pre, sep).len() - 1,
                split_on(pre, sep).last().push(b),
            ));
        }
        i = i + 1;
    }
    assert(s@.subrange(0, s@.len() as int) =~= s@);
    let ghost before = views(pieces@);
    pieces.push(cur);
    assert(views(pieces@) =~= before.push(pieces@.last()@));
    pieces
}

fn is_space_byte(b: u8) -> (r: bool)
    ensures
        r == is_space(b),
{
    b == 0x20u8 || b == 0x09u8 || b == 0x0Au8 || b == 0x0Bu8 || b == 0x0Cu8 || b == 0x0Du8
}

/// The whitespace-separated words of `s`.
pub fn split_words(s: &[u8]) -> (r: Vec<Vec<u8>>)
    ensures
        views(r@) == words(s@),
{
    let mut pieces: Vec<Vec<u8>> = Vec::new();
    let mut cur: Vec<u8> = Vec::new();
    let mut in_word: bool = false;
    let mut i: usize = 0;
    assert(views(pieces@) =~= words(s@.subrange(0, 0)));
    while i < s.len()
        invariant
            i <= s@.len(),
            in_word == (i > 0 && !is_space(s@[i - 1])),
            in_word ==> views(pieces@).push(cur@) == words(s@.subrange(0, i as int)),
            !in_word ==> views(pieces@) == words(s@.subrange(0, i as int)) && cur@.len() == 0,
        decreases s@.len() - i,
    {
        let b = s[i];
        let ghost pre = s@.subrange(0, i as int);
        let ghost next = s@.subrange(0, i + 1);
        assert(next.drop_last() =~= pre);
        assert(next.last() == b);
        if i > 0 {
            assert(next[next.len() - 2] == s@[i - 1]);
        }
        if is_space_byte(b) {
            if in_word {
                let ghost before = views(pieces@);
                pieces.push(cur);
                assert(views(pieces@) =~= before.push(pieces@.last()@));
                cur = Vec::new();
            }
            in_word = false;
        } else {
            let ghost old_pieces = views(pieces@);
            cur.push(b);
            assert(views(pieces@) =~= old_pieces);
            if in_word {
                proof {
                    lemma_words_nonempty(pre);
                }
                assert(views(pieces@).push(cur@) =~= words(pre).update(
                    words(pre).len() - 1,
                    words(pre).last().push(b),
                ));
            } else {
                assert(cur@ =~= seq![b]);
                assert(views(pieces@).push(cur@) =~= words(pre).push(seq![b]));
            }
            in_word = true;
        }
        i = i + 1;
    }
    assert(s@.subrange(0, s@.len() as int) =~= s@);
    if in_word {
        let ghost before = views(pieces@);
        pieces.push(cur);
        assert(views(pieces@) =~= before.push(pieces@.last()@));
    }
    pieces
}

/// `s` with its ASCII capitals made small.
pub fn to_ascii_lower(s: &[u8]) -> (r: Vec<u8>)
    ensures
        r@ == ascii_lower(s@),
{
    let mut r: Vec<u8> = Vec::new();
    let mut i: usize = 0;
    while i < s.len()
        invariant
            i <= s@.len(),
            r@ =~= ascii_lower(s@.subrange(0, i as int)),
        decreases s@.len() - i,
    {
        let b = s[i];
        let c = if 0x41u8 <= b && b <= 0x5Au8 {
            b + 32
        } else {
            b
        };
        r.push(c);
        i = i + 1;
        assert(r@ =~= ascii_lower(s@.subrange(0, i as int)));
    }
    assert(s@.subrange(0, s@.len() as int) =~= s@);
    r
}

/// `s` with its ASCII small letters made capital.
pub fn to_ascii_upper(s: &[u8]) -> (r: Vec<u8>)
    ensures
        r@ == ascii_upper(s@),
{
    let mut r: Vec<u8> = Vec::new();
    let mut i: usize = 0;
    while i < s.len()
        invariant
            i <= s@.len(),
            r@ =~= ascii_upper(s@.subrange(0, i as int)),
        decreases s@.len() - i,
    {
        let b = s[i];
        let c = if 0x61u8 <= b && b <= 0x7Au8 {
            b - 32
        } else {
            b
        };
        r.push(c);
        i = i + 1;
        assert(r@ =~= ascii_upper(s@.subrange(0, i as int)));
    }
    assert(s@.subrange(0, s@.len() as int) =~= s@);
    r
}

/// Reads a byte-sized unsigned decimal: an optional `+` and one or more
/// digits, at most 255 in value.
pub fn parse_u8(s: &[u8]) -> (r: Option<u8>)
    ensures
        r == decimal_u8(s@),
{
    let start: usize = if s.len() > 0 && s[0] == 0x2Bu8 {
        1
    } else {
        0
    };
    let ghost d = s@.subrange(start as int, s@.len() as int);
    assert(d =~= if s@.len() > 0 && s@[0] == 0x2Bu8 {
        s@.subrange(1, s@.len() as int)
    } else {
        s@
    });
    if start == s.len() {
        return None;
    }
    let mut acc: u32 = 0;
    let mut i: usize = start;
    while i < s.len()
        invariant
            start <= i <= s@.len(),
            d == s@.subrange(start as int, s@.len() as int),
            d == if s@.len() > 0 && s@[0] == 0x2Bu8 {
                s@.subrange(1, s@.len() as int)
            } else {
                s@
            },
            all_digits(s@.subrange(start as int, i as int)),
            acc == if digits_value(s@.subrange(start as int, i as int)) < 256 {
                digits_value(s@.subrange(start as int, i as int))
            } else {
                256
            },
        decreases s@.len() - i,
    {
        let b = s[i];
        let ghost pre = s@.subrange(start as int, i as int);
        let ghost next = s@.subrange(start as int, i + 1);
        assert(next.drop_last() =~= pre);
        if b < 0x30u8 || b > 0x39u8 {
            assert(d[i - start] == b);
            assert(!is_digit(d[i - start]));
            assert(!all_digits(d));
            return None;
        }
        assert(digits_value(next) == digits_value(pre) * 10 + (b - 0x30u8) as nat);
        let v = acc * 10 + (b - 0x30u8) as u32;
        acc = if v < 256 {
            v
        } else {
            256
        };
        i = i + 1;
        assert(all_digits(next)) by {
            assert forall|k: int| 0 <= k < next.len() implies is_digit(#[trigger] next[k]) by {
                if k < pre.len() {
                    assert(next[k] == pre[k]);
                }
            }
        }
    }
    assert(s@.subrange(start as int, i as int) =~= d);
    if acc < 256 {
        Some(acc as u8)
    } else {
        None
    }
}

} // verus!
