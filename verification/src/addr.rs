use vstd::prelude::*;

verus! {

/// An ASCII decimal digit.
pub open spec fn is_digit(b: u8) -> bool {
    48 <= b <= 57
}

/// Numeric value of a run of decimal digits.
pub open spec fn digits_value(s: Seq<u8>) -> int
    decreases s.len(),
{
    if s.len() == 0 {
        0
    } else {
        digits_value(s.drop_last()) * 10 + (s.last() - 48)
    }
}

proof fn lemma_digits_value_range(s: Seq<u8>)
    requires
        forall|i: int| 0 <= i < s.len() ==> is_digit(#[trigger] s[i]),
    ensures
        0 <= digits_value(s),
        s.len() <= 1 ==> digits_value(s) <= 9,
        s.len() <= 2 ==> digits_value(s) <= 99,
        s.len() <= 3 ==> digits_value(s) <= 999,
    decreases s.len(),
{
    if s.len() > 0 {
        lemma_digits_value_range(s.drop_last());
    }
}

/// The text of one dotted-quad octet: one to three decimal digits with
/// no surplus leading zero, spelling a value of at most 255.
pub open spec fn is_octet_text(s: Seq<u8>) -> bool {
    &&& 1 <= s.len() <= 3
    &&& (forall|i: int| 0 <= i < s.len() ==> is_digit(#[trigger] s[i]))
    &&& (s[0] == 48 ==> s.len() == 1)
    &&& digits_value(s) <= 255
}

/// The text splits at dots standing at i, j and k into four octet
/// texts spelling a, b, c and d.
pub open spec fn is_ipv4_split(s: Seq<u8>, a: u8, b: u8, c: u8, d: u8, i: int, j: int, k: int) -> bool {
    &&& 0 <= i < j < k < s.len()
    &&& s[i] == 46 && s[j] == 46 && s[k] == 46
    &&& is_octet_text(s.subrange(0, i)) && digits_value(s.subrange(0, i)) == a
    &&& is_octet_text(s.subrange(i + 1, j)) && digits_value(s.subrange(i + 1, j)) == b
    &&& is_octet_text(s.subrange(j + 1, k)) && digits_value(s.subrange(j + 1, k)) == c
    &&& is_octet_text(s.subrange(k + 1, s.len() as int)) && digits_value(
        s.subrange(k + 1, s.len() as int),
    ) == d
}

/// A dotted-quad address text spelling the four octets a, b, c, d:
/// four octet texts joined by single dots.
pub open spec fn is_ipv4_text(s: Seq<u8>, a: u8, b: u8, c: u8, d: u8) -> bool {
    exists|i: int, j: int, k: int| is_ipv4_split(s, a, b, c, d, i, j, k)
}

/// In a valid address text every dot character is one of the three
/// separating dots: the four segments hold digits only.
proof fn lemma_dot_is_separator(s: Seq<u8>, i: int, j: int, k: int, p: int)
    requires
        0 <= i < j < k < s.len(),
        is_octet_text(s.subrange(0, i)),
        is_octet_text(s.subrange(i + 1, j)),
        is_octet_text(s.subrange(j + 1, k)),
        is_octet_text(s.subrange(k + 1, s.len() as int)),
        0 <= p < s.len(),
        s[p] == 46,
    ensures
        p == i || p == j || p == k,
{
    if p < i {
        assert(s.subrange(0, i)[p] == s[p]);
    } else if i < p < j {
        assert(s.subrange(i + 1, j)[p - i - 1] == s[p]);
    } else if j < p < k {
        assert(s.subrange(j + 1, k)[p - j - 1] == s[p]);
    } else if k < p {
        assert(s.subrange(k + 1, s.len() as int)[p - k - 1] == s[p]);
    }
}

/// A text spells at most one dotted quad: the dots are forced (every
/// other character is a digit), so the segments and their values are too.
proof fn lemma_ipv4_text_unique(
    s: Seq<u8>,
    a1: u8,
    b1: u8,
    c1: u8,
    d1: u8,
    a2: u8,
    b2: u8,
    c2: u8,
    d2: u8,
)
    requires
        is_ipv4_text(s, a1, b1, c1, d1),
        is_ipv4_text(s, a2, b2, c2, d2),
    ensures
        a1 == a2 && b1 == b2 && c1 == c2 && d1 == d2,
{
    let (i1, j1, k1) = choose|i: int, j: int, k: int| is_ipv4_split(s, a1, b1, c1, d1, i, j, k);
    let (i2, j2, k2) = choose|i: int, j: int, k: int| is_ipv4_split(s, a2, b2, c2, d2, i, j, k);
    lemma_dot_is_separator(s, i1, j1, k1, i2);
    lemma_dot_is_separator(s, i1, j1, k1, j2);
    lemma_dot_is_separator(s, i1, j1, k1, k2);
    assert(i1 == i2 && j1 == j2 && k1 == k2);
}

/// The four octet values a dotted-quad text spells, if any; by the
/// uniqueness of the reading there is at most one.
pub open spec fn spec_quad(s: Seq<u8>) -> Option<(u8, u8, u8, u8)> {
    if exists|a: u8, b: u8, c: u8, d: u8| is_ipv4_text(s, a, b, c, d) {
        Option::Some(choose|a: u8, b: u8, c: u8, d: u8| is_ipv4_text(s, a, b, c, d))
    } else {
        Option::None
    }
}

pub proof fn lemma_spec_quad_of(s: Seq<u8>, a: u8, b: u8, c: u8, d: u8)
    requires
        is_ipv4_text(s, a, b, c, d),
    ensures
        spec_quad(s) == Option::Some((a, b, c, d)),
{
    let (a2, b2, c2, d2) = choose|a2: u8, b2: u8, c2: u8, d2: u8| is_ipv4_text(s, a2, b2, c2, d2);
    lemma_ipv4_text_unique(s, a, b, c, d, a2, b2, c2, d2);
}

pub proof fn lemma_spec_quad_none(s: Seq<u8>)
    requires
        forall|a: u8, b: u8, c: u8, d: u8| !is_ipv4_text(s, a, b, c, d),
    ensures
        spec_quad(s) is None,
{
    if spec_quad(s) is Some {
        let (a, b, c, d) = choose|a: u8, b: u8, c: u8, d: u8| is_ipv4_text(s, a, b, c, d);
        assert(!is_ipv4_text(s, a, b, c, d));
    }
}

/// All positions of the dot character, in increasing order.
fn find_dots(s: &Vec<u8>) -> (dots: Vec<usize>)
    ensures
        forall|t: int| 0 <= t < dots@.len() ==> (#[trigger] dots@[t]) < s@.len()
            && s@[dots@[t] as int] == 46,
        forall|q: int| 0 <= q < s@.len() && s@[q] == 46 ==> exists|t: int|
            0 <= t < dots@.len() && #[trigger] dots@[t] == q,
        forall|t: int, u: int|
            #![trigger dots@[t], dots@[u]]
            0 <= t < u < dots@.len() ==> dots@[t] < dots@[u],
{
    let mut dots: Vec<usize> = Vec::new();
    let mut p: usize = 0;
    while p < s.len()
        invariant
            p <= s@.len(),
            forall|t: int| 0 <= t < dots@.len() ==> (#[trigger] dots@[t]) < p
                && s@[dots@[t] as int] == 46,
            forall|q: int| 0 <= q < p && s@[q] == 46 ==> exists|t: int|
                0 <= t < dots@.len() && #[trigger] dots@[t] == q,
            forall|t: int, u: int|
                #![trigger dots@[t], dots@[u]]
                0 <= t < u < dots@.len() ==> dots@[t] < dots@[u],
        decreases s@.len() - p,
    {
        if s[p] == 46 {
            let ghost pre = dots@;
            dots.push(p);
            proof {
                assert forall|q: int| 0 <= q < p + 1 && s@[q] == 46 implies exists|t: int|
                    0 <= t < dots@.len() && #[trigger] dots@[t] == q by {
                    if q == p {
                        assert(dots@[pre.len() as int] == q);
                    } else {
                        let t0 = choose|t: int| 0 <= t < pre.len() && #[trigger] pre[t] == q;
                        assert(dots@[t0] == q);
                    }
                }
            }
        }
        p = p + 1;
    }
    dots
}

/// Value of the run of bytes from `lo` (inclusive) to `hi` (exclusive)
/// when it is a well-formed octet text, and nothing otherwise.
fn segment_value(s: &Vec<u8>, lo: usize, hi: usize) -> (r: Option<u8>)
    requires
        lo <= hi <= s@.len(),
    ensures
        match r {
            Option::Some(v) => is_octet_text(s@.subrange(lo as int, hi as int)) && digits_value(
                s@.subrange(lo as int, hi as int),
            ) == v,
            Option::None => !is_octet_text(s@.subrange(lo as int, hi as int)),
        },
{
    let ghost seg = s@.subrange(lo as int, hi as int);
    let n = hi - lo;
    if n < 1 || n > 3 {
        return None;
    }
    if s[lo] == 48 && n > 1 {
        return None;
    }
    let mut v: u32 = 0;
    let mut t: usize = 0;
    while t < n
        invariant
            t <= n,
            n == hi - lo,
            lo <= hi <= s@.len(),
            1 <= n <= 3,
            seg == s@.subrange(lo as int, hi as int),
            forall|q: int| 0 <= q < t ==> is_digit(#[trigger] seg[q]),
            v == digits_value(seg.take(t as int)),
        decreases n - t,
    {
        let b = s[lo + t];
        if b < 48 || b > 57 {
            proof {
                assert(seg[t as int] == s@[lo + t]);
            }
            return None;
        }
        proof {
            assert(seg.take(t + 1).drop_last() =~= seg.take(t as int));
            assert(seg.take(t + 1).last() == seg[t as int]);
            assert(seg[t as int] == s@[lo + t]);
            lemma_digits_value_range(seg.take(t as int));
        }
        v = v * 10 + (b - 48) as u32;
        t = t + 1;
    }
    proof {
        assert(seg.take(n as int) =~= seg);
    }
    if v > 255 {
        return None;
    }
    Some(v as u8)
}

/// Parse a dotted-quad IPv4 address: the four octet values when the
/// text spells one, and nothing for any other text.
pub fn parse_ipv4(s: &Vec<u8>) -> (r: Option<(u8, u8, u8, u8)>)
    ensures
        match r {
            Option::Some(q) => is_ipv4_text(s@, q.0, q.1, q.2, q.3),
            Option::None => forall|a: u8, b: u8, c: u8, d: u8| !is_ipv4_text(s@, a, b, c, d),
        },
{
    let dots = find_dots(s);
    if dots.len() != 3 {
        proof {
            assert forall|a: u8, b: u8, c: u8, d: u8| !is_ipv4_text(s@, a, b, c, d) by {
                if is_ipv4_text(s@, a, b, c, d) {
                    let (i, j, k) = choose|i: int, j: int, k: int|
                        is_ipv4_split(s@, a, b, c, d, i, j, k);
                    let t0 = choose|t: int| 0 <= t < dots@.len() && #[trigger] dots@[t] == i;
                    let t1 = choose|t: int| 0 <= t < dots@.len() && #[trigger] dots@[t] == j;
                    let t2 = choose|t: int| 0 <= t < dots@.len() && #[trigger] dots@[t] == k;
                    assert(dots@.len() >= 3);
                    if dots@.len() > 3 {
                        lemma_dot_is_separator(s@, i, j, k, dots@[0] as int);
                        lemma_dot_is_separator(s@, i, j, k, dots@[1] as int);
                        lemma_dot_is_separator(s@, i, j, k, dots@[2] as int);
                        lemma_dot_is_separator(s@, i, j, k, dots@[3] as int);
                    }
                }
            }
        }
        return None;
    }
    let i = dots[0];
    let j = dots[1];
    let k = dots[2];
    proof {
        assert(dots@[0] < dots@[1]);
        assert(dots@[1] < dots@[2]);
        assert(dots@[2] < s@.len());
        assert(dots@[0] < s@.len());
        assert(dots@[1] < s@.len());
    }
    let n = s.len();
    let sa = segment_value(s, 0, i);
    let sb = segment_value(s, i + 1, j);
    let sc = segment_value(s, j + 1, k);
    let sd = segment_value(s, k + 1, n);
    proof {
        if exists|a: u8, b: u8, c: u8, d: u8| is_ipv4_text(s@, a, b, c, d) {
            let (a, b, c, d) = choose|a: u8, b: u8, c: u8, d: u8| is_ipv4_text(s@, a, b, c, d);
            let (wi, wj, wk) = choose|wi: int, wj: int, wk: int|
                is_ipv4_split(s@, a, b, c, d, wi, wj, wk);
            let u0 = choose|t: int| 0 <= t < dots@.len() && #[trigger] dots@[t] == wi;
            let u1 = choose|t: int| 0 <= t < dots@.len() && #[trigger] dots@[t] == wj;
            let u2 = choose|t: int| 0 <= t < dots@.len() && #[trigger] dots@[t] == wk;
            lemma_dot_is_separator(s@, wi, wj, wk, i as int);
            lemma_dot_is_separator(s@, wi, wj, wk, j as int);
            lemma_dot_is_separator(s@, wi, wj, wk, k as int);
            assert(i == wi && j == wj && k == wk);
        }
    }
    match (sa, sb, sc, sd) {
        (Some(a), Some(b), Some(c), Some(d)) => {
            proof {
                assert(is_ipv4_split(s@, a, b, c, d, i as int, j as int, k as int));
            }
            Some((a, b, c, d))
        },
        _ => None,
    }
}

/// An ASCII hexadecimal digit, either case.
pub open spec fn is_hex_digit(b: u8) -> bool {
    is_digit(b) || 97 <= b <= 102 || 65 <= b <= 70
}

pub open spec fn hex_digit_value(b: u8) -> int {
    if is_digit(b) {
        b - 48
    } else if 97 <= b <= 102 {
        b - 87
    } else {
        b - 55
    }
}

/// Numeric value of a run of hexadecimal digits.
pub open spec fn hex_value(s: Seq<u8>) -> int
    decreases s.len(),
{
    if s.len() == 0 {
        0
    } else {
        hex_value(s.drop_last()) * 16 + hex_digit_value(s.last())
    }
}

proof fn lemma_hex_value_snoc(s: Seq<u8>, p: int, q: int)
    requires
        0 <= p <= q < s.len(),
    ensures
        hex_value(s.subrange(p, q + 1)) == hex_value(s.subrange(p, q)) * 16 + hex_digit_value(
            s[q],
        ),
{
    assert(s.subrange(p, q + 1).drop_last() =~= s.subrange(p, q));
    assert(s.subrange(p, q + 1).last() == s[q]);
}

proof fn lemma_hex_value_range(s: Seq<u8>)
    requires
        forall|i: int| 0 <= i < s.len() ==> is_hex_digit(#[trigger] s[i]),
    ensures
        0 <= hex_value(s),
        s.len() <= 1 ==> hex_value(s) <= 0xF,
        s.len() <= 2 ==> hex_value(s) <= 0xFF,
        s.len() <= 3 ==> hex_value(s) <= 0xFFF,
        s.len() <= 4 ==> hex_value(s) <= 0xFFFF,
    decreases s.len(),
{
    if s.len() > 0 {
        lemma_hex_value_range(s.drop_last());
    }
}

/// Two adjacent colons standing at position i.
pub open spec fn dc_at(s: Seq<u8>, i: int) -> bool {
    0 <= i && i + 1 < s.len() && s[i] == 58 && s[i + 1] == 58
}

pub open spec fn has_dc(s: Seq<u8>) -> bool {
    exists|i: int| dc_at(s, i)
}

/// The position of the first double colon.
pub open spec fn first_dc(s: Seq<u8>) -> int {
    choose|i: int| dc_at(s, i) && (forall|j: int| 0 <= j < i ==> !dc_at(s, j))
}

proof fn lemma_first_dc(s: Seq<u8>, z: int)
    requires
        dc_at(s, z),
        forall|j: int| 0 <= j < z ==> !dc_at(s, j),
    ensures
        has_dc(s),
        first_dc(s) == z,
{
    assert(dc_at(s, z) && (forall|j: int| 0 <= j < z ==> !dc_at(s, j)));
    let w = first_dc(s);
    assert(dc_at(s, w) && (forall|j: int| 0 <= j < w ==> !dc_at(s, j)));
    if w < z {
        assert(!dc_at(s, w));
    }
    if z < w {
        assert(!dc_at(s, z));
    }
}

/// Whether position p, within [0, end), holds a hexadecimal digit.
pub open spec fn hex_at(s: Seq<u8>, p: int, end: int) -> bool {
    0 <= p < end <= s.len() && is_hex_digit(s[p])
}

/// Length of the run of hexadecimal digits at p, capped at four: a
/// longer run cannot start a well-formed group.
pub open spec fn hex_run(s: Seq<u8>, p: int, end: int) -> int {
    if !hex_at(s, p, end) {
        0
    } else if !hex_at(s, p + 1, end) {
        1
    } else if !hex_at(s, p + 2, end) {
        2
    } else if !hex_at(s, p + 3, end) {
        3
    } else {
        4
    }
}

/// The group values of the colon-separated list filling exactly
/// [p, end) of the text: hexadecimal groups of one to four digits
/// (leading zeros allowed), and, where a dotted quad is allowed, the
/// list may end in one embedded quad standing for the final two groups.
pub open spec fn spec_group_list(s: Seq<u8>, p: int, end: int, allow_v4: bool) -> Option<Seq<u16>>
    decreases end - p,
{
    if !(0 <= p < end <= s.len()) {
        Option::None
    } else if allow_v4 && spec_quad(s.subrange(p, end)) is Some {
        match spec_quad(s.subrange(p, end)) {
            Option::Some(q) => Option::Some(
                seq![
                    ((q.0 as int) * 256 + (q.1 as int)) as u16,
                    ((q.2 as int) * 256 + (q.3 as int)) as u16,
                ],
            ),
            Option::None => Option::None,
        }
    } else {
        let r = hex_run(s, p, end);
        if r < 1 {
            Option::None
        } else {
            let v = hex_value(s.subrange(p, p + r)) as u16;
            if p + r == end {
                Option::Some(seq![v])
            } else if s[p + r] == 58 {
                match spec_group_list(s, p + r + 1, end, allow_v4) {
                    Option::Some(rest) => Option::Some(seq![v] + rest),
                    Option::None => Option::None,
                }
            } else {
                Option::None
            }
        }
    }
}

/// The eight 16-bit groups an IPv6 address text spells, if any: either
/// eight colon-separated hexadecimal groups outright, or, with one
/// double colon standing for a run of zero groups, at most seven; the
/// final group position may hold an embedded dotted quad, which counts
/// for two groups.
pub open spec fn spec_ipv6_groups(s: Seq<u8>) -> Option<Seq<u16>> {
    if has_dc(s) {
        let z = first_dc(s);
        let left = if z == 0 {
            Option::Some(Seq::<u16>::empty())
        } else {
            spec_group_list(s, 0, z, false)
        };
        let right = if z + 2 == s.len() {
            Option::Some(Seq::<u16>::empty())
        } else {
            spec_group_list(s, z + 2, s.len() as int, true)
        };
        match (left, right) {
            (Option::Some(l), Option::Some(r)) => if l.len() + r.len() <= 7 {
                Option::Some(l + Seq::new((8 - l.len() - r.len()) as nat, |x: int| 0u16) + r)
            } else {
                Option::None
            },
            _ => Option::None,
        }
    } else {
        match spec_group_list(s, 0, s.len() as int, true) {
            Option::Some(g) => if g.len() == 8 {
                Option::Some(g)
            } else {
                Option::None
            },
            Option::None => Option::None,
        }
    }
}

/// Copy of the bytes in [lo, hi).
fn subvec(s: &Vec<u8>, lo: usize, hi: usize) -> (r: Vec<u8>)
    requires
        lo <= hi <= s@.len(),
    ensures
        r@ =~= s@.subrange(lo as int, hi as int),
{
    let mut r: Vec<u8> = Vec::new();
    let mut t: usize = lo;
    while t < hi
        invariant
            lo <= t <= hi <= s@.len(),
            r@ =~= s@.subrange(lo as int, t as int),
        decreases hi - t,
    {
        r.push(s[t]);
        proof {
            assert(s@.subrange(lo as int, t + 1) =~= s@.subrange(lo as int, t as int).push(
                s@[t as int],
            ));
        }
        t = t + 1;
    }
    r
}

/// Value of one hexadecimal digit character.
fn hex_digit_val(b: u8) -> (r: Option<u8>)
    ensures
        match r {
            Option::Some(v) => is_hex_digit(b) && v == hex_digit_value(b),
            Option::None => !is_hex_digit(b),
        },
{
    if 48 <= b && b <= 57 {
        Some(b - 48)
    } else if 97 <= b && b <= 102 {
        Some(b - 87)
    } else if 65 <= b && b <= 70 {
        Some(b - 55)
    } else {
        None
    }
}

/// The group values of the colon-separated list filling exactly
/// [p, end), when the range is such a list, and nothing otherwise.
fn parse_group_list(s: &Vec<u8>, p: usize, end: usize, allow_v4: bool) -> (r: Option<Vec<u16>>)
    requires
        end <= s@.len(),
    ensures
        match r {
            Option::Some(v) => spec_group_list(s@, p as int, end as int, allow_v4)
                == Option::Some(v@),
            Option::None => spec_group_list(s@, p as int, end as int, allow_v4) is None,
        },
    decreases end - p,
{
    if !(p < end) {
        return None;
    }
    if allow_v4 {
        let piece = subvec(s, p, end);
        match parse_ipv4(&piece) {
            Option::Some((a, b, c, d)) => {
                proof {
                    lemma_spec_quad_of(s@.subrange(p as int, end as int), a, b, c, d);
                }
                let g1: u16 = (a as u16) * 256 + (b as u16);
                let g2: u16 = (c as u16) * 256 + (d as u16);
                let mut out: Vec<u16> = Vec::new();
                out.push(g1);
                out.push(g2);
                proof {
                    assert(out@ =~= seq![g1, g2]);
                }
                return Some(out);
            },
            Option::None => {
                proof {
                    lemma_spec_quad_none(s@.subrange(p as int, end as int));
                }
            },
        }
    }
    let ghost pe = p as int;
    // a group has at most four digits: read them one by one
    let mut r: usize = 0;
    let mut v: u32 = 0;
    if end - p > 0 {
        if let Some(d0) = hex_digit_val(s[p]) {
            v = d0 as u32;
            r = 1;
            if end - p > 1 {
                if let Some(d1) = hex_digit_val(s[p + 1]) {
                    v = v * 16 + d1 as u32;
                    r = 2;
                    if end - p > 2 {
                        if let Some(d2) = hex_digit_val(s[p + 2]) {
                            v = v * 16 + d2 as u32;
                            r = 3;
                            if end - p > 3 {
                                if let Some(d3) = hex_digit_val(s[p + 3]) {
                                    v = v * 16 + d3 as u32;
                                    r = 4;
                                }
                            }
                        }
                    }
                }
            }
        }
    }
    proof {
        assert(hex_run(s@, pe, end as int) == r as int);
        assert(s@.subrange(pe, pe) =~= Seq::<u8>::empty());
        if r >= 1 {
            lemma_hex_value_snoc(s@, pe, pe);
        }
        if r >= 2 {
            lemma_hex_value_snoc(s@, pe, pe + 1);
        }
        if r >= 3 {
            lemma_hex_value_snoc(s@, pe, pe + 2);
        }
        if r >= 4 {
            lemma_hex_value_snoc(s@, pe, pe + 3);
        }
        assert(v as int == hex_value(s@.subrange(pe, pe + r)));
    }
    if r == 0 {
        return None;
    }
    let v: u16 = v as u16;
    if p + r == end {
        let mut out: Vec<u16> = Vec::new();
        out.push(v);
        proof {
            assert(out@ =~= seq![v]);
        }
        return Some(out);
    }
    if s[p + r] == 58 {
        match parse_group_list(s, p + r + 1, end, allow_v4) {
            Option::Some(rest) => {
                let mut out: Vec<u16> = Vec::new();
                out.push(v);
                let mut rest = rest;
                out.append(&mut rest);
                proof {
                    assert(out@ =~= seq![v] + spec_group_list(
                        s@,
                        pe + r + 1,
                        end as int,
                        allow_v4,
                    )->Some_0);
                }
                Some(out)
            },
            Option::None => None,
        }
    } else {
        None
    }
}

/// The eight 16-bit groups an IPv6 address text spells, and nothing
/// for any other text.
#[verifier::rlimit(100)]
pub fn parse_ipv6(s: &Vec<u8>) -> (r: Option<[u16; 8]>)
    ensures
        match r {
            Option::Some(g) => spec_ipv6_groups(s@) == Option::Some(g@),
            Option::None => spec_ipv6_groups(s@) is None,
        },
{
    let n = s.len();
    let mut dc: Option<usize> = None;
    let mut i: usize = 0;
    while n - i > 1
        invariant
            i <= n,
            n == s@.len(),
            match dc {
                Option::Some(z) => dc_at(s@, z as int) && (forall|j: int|
                    0 <= j < z ==> !dc_at(s@, j)),
                Option::None => forall|j: int| 0 <= j < i ==> !dc_at(s@, j),
            },
        decreases n - i,
    {
        if dc.is_none() && s[i] == 58 && s[i + 1] == 58 {
            dc = Some(i);
        }
        i = i + 1;
    }
    match dc {
        Option::None => {
            proof {
                assert(!has_dc(s@)) by {
                    if has_dc(s@) {
                        let w = choose|w: int| dc_at(s@, w);
                        assert(!dc_at(s@, w));
                    }
                }
            }
            match parse_group_list(s, 0, n, true) {
                Option::Some(v) => {
                    if v.len() == 8 {
                        let out: [u16; 8] = [v[0], v[1], v[2], v[3], v[4], v[5], v[6], v[7]];
                        proof {
                            assert(out@ =~= v@);
                        }
                        Some(out)
                    } else {
                        None
                    }
                },
                Option::None => None,
            }
        },
        Option::Some(z) => {
            proof {
                lemma_first_dc(s@, z as int);
            }
            let left: Option<Vec<u16>> = if z == 0 {
                Some(Vec::new())
            } else {
                parse_group_list(s, 0, z, false)
            };
            let right: Option<Vec<u16>> = if z + 2 == n {
                Some(Vec::new())
            } else {
                parse_group_list(s, z + 2, n, true)
            };
            match (left, right) {
                (Option::Some(l), Option::Some(rg)) => {
                    if l.len() <= 7 && rg.len() <= 7 - l.len() {
                        let zeros = 8 - l.len() - rg.len();
                        let mut vv: Vec<u16> = Vec::new();
                        let mut t: usize = 0;
                        while t < l.len()
                            invariant
                                t <= l@.len(),
                                vv@ =~= l@.take(t as int),
                            decreases l@.len() - t,
                        {
                            vv.push(l[t]);
                            proof {
                                assert(l@.take(t + 1) =~= l@.take(t as int).push(l@[t as int]));
                            }
                            t = t + 1;
                        }
                        proof {
                            assert(l@.take(l@.len() as int) =~= l@);
                        }
                        let mut k: usize = 0;
                        while k < zeros
                            invariant
                                k <= zeros,
                                vv@ =~= l@ + Seq::new(k as nat, |x: int| 0u16),
                            decreases zeros - k,
                        {
                            vv.push(0);
                            proof {
                                assert(l@ + Seq::new((k + 1) as nat, |x: int| 0u16) =~= (l@
                                    + Seq::new(k as nat, |x: int| 0u16)).push(0u16));
                            }
                            k = k + 1;
                        }
                        let ghost mid = l@ + Seq::new(zeros as nat, |x: int| 0u16);
                        let mut t2: usize = 0;
                        while t2 < rg.len()
                            invariant
                                t2 <= rg@.len(),
                                vv@ =~= mid + rg@.take(t2 as int),
                            decreases rg@.len() - t2,
                        {
                            vv.push(rg[t2]);
                            proof {
                                assert(rg@.take(t2 + 1) =~= rg@.take(t2 as int).push(
                                    rg@[t2 as int],
                                ));
                                assert(mid + rg@.take(t2 + 1) =~= (mid + rg@.take(
                                    t2 as int,
                                )).push(rg@[t2 as int]));
                            }
                            t2 = t2 + 1;
                        }
                        proof {
                            assert(rg@.take(rg@.len() as int) =~= rg@);
                        }
                        let out: [u16; 8] = [vv[0], vv[1], vv[2], vv[3], vv[4], vv[5], vv[6], vv[7]];
                        proof {
                            assert(out@ =~= vv@);
                        }
                        Some(out)
                    } else {
                        None
                    }
                },
                _ => None,
            }
        },
    }
}

} // verus!
