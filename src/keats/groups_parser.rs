//! The group-range notation: `"1-3, 5"` names the groups 1, 2, 3 and 5.

use vstd::prelude::*;

verus! {

/// An inclusive range of groups, `start-end`.
#[derive(Clone, Copy, Debug, PartialEq, Eq, Structural)]
pub struct Range {
    pub start: u32,
    pub end: u32,
}

/// One comma- or space-separated item of a group range.
#[derive(Clone, Copy, Debug, PartialEq, Eq, Structural)]
pub enum Part {
    Single(u32),
    Range(Range),
}

/// The range that stands in for a specification that does not parse.
pub open spec fn default_part() -> Part {
    Part::Range(Range { start: 200, end: 299 })
}

pub open spec fn is_digit(c: char) -> bool {
    '0' <= c && c <= '9'
}

/// The spaces, tabs, carriage returns and line feeds allowed around
/// separators.
pub open spec fn is_pad(c: char) -> bool {
    c == ' ' || c == '\t' || c == '\r' || c == '\n'
}

/// The position after the run of digits that starts at `i`.
pub open spec fn digits_end(t: Seq<char>, i: int) -> int
    decreases t.len() - i,
{
    if 0 <= i < t.len() && is_digit(t[i]) {
        digits_end(t, i + 1)
    } else {
        i
    }
}

/// The position after the run of padding that starts at `i`.
pub open spec fn pad_end(t: Seq<char>, i: int) -> int
    decreases t.len() - i,
{
    if 0 <= i < t.len() && is_pad(t[i]) {
        pad_end(t, i + 1)
    } else {
        i
    }
}

/// The number that the decimal digits `d` write.
pub open spec fn decimal_value(d: Seq<char>) -> nat
    decreases d.len(),
{
    if d.len() == 0 {
        0
    } else {
        decimal_value(d.drop_last()) * 10 + (d.last() as nat - '0' as nat) as nat
    }
}

/// A number at `i`: one or more digits whose value fits in `u32`, with the
/// position after them.
pub open spec fn single_at(t: Seq<char>, i: int) -> Option<(u32, int)> {
    let j = digits_end(t, i);
    let v = decimal_value(t.subrange(i, j));
    if i < j && v <= u32::MAX {
        Some((v as u32, j))
    } else {
        None
    }
}

/// A range at `i`: a number, a dash with optional padding on each side, and
/// a number.
pub open spec fn range_at(t: Seq<char>, i: int) -> Option<(Range, int)> {
    match single_at(t, i) {
        Some((a, j)) => {
            let k = pad_end(t, j);
            if k < t.len() && t[k] == '-' {
                match single_at(t, pad_end(t, k + 1)) {
                    Some((b, m)) => Some((Range { start: a, end: b }, m)),
                    None => None,
                }
            } else {
                None
            }
        },
        None => None,
    }
}

/// A part at `i`: a range where one stands there, else a single number.
pub open spec fn part_at(t: Seq<char>, i: int) -> Option<(Part, int)> {
    match range_at(t, i) {
        Some((r, m)) => Some((Part::Range(r), m)),
        None => match single_at(t, i) {
            Some((a, j)) => Some((Part::Single(a), j)),
            None => None,
        },
    }
}

/// A separator at `i`: a comma with optional padding on each side, or
/// failing that a single space.
pub open spec fn separator_at(t: Seq<char>, i: int) -> Option<int> {
    let k = pad_end(t, i);
    if k < t.len() && t[k] == ',' {
        Some(pad_end(t, k + 1))
    } else if 0 <= i < t.len() && t[i] == ' ' {
        Some(i + 1)
    } else {
        None
    }
}

/// The parts of `t` from `i` on, when all of it is a list of parts joined
/// by separators.
pub open spec fn list_from(t: Seq<char>, i: int) -> Option<Seq<Part>>
    decreases t.len() - i,
{
    match part_at(t, i) {
        Some((p, j)) => if j == t.len() {
            Some(seq![p])
        } else {
            match separator_at(t, j) {
                Some(k) => if i < k <= t.len() {
                    match list_from(t, k) {
                        Some(rest) => Some(seq![p] + rest),
                        None => None,
                    }
                } else {
                    None
                },
                None => None,
            }
        },
        None => None,
    }
}

/// The parts that a specification stands for: those of the whole trimmed
/// text, or the default range where that is not a list.
pub open spec fn parts_of(text: Seq<char>) -> Seq<Part> {
    match list_from(trimmed(text), 0) {
        Some(ps) => ps,
        None => seq![default_part()],
    }
}

pub open spec fn part_contains(p: Part, x: u32) -> bool {
    match p {
        Part::Single(v) => x == v,
        Part::Range(r) => r.start <= x && x <= r.end,
    }
}

pub open spec fn covers(ps: Seq<Part>, x: u32) -> bool {
    exists|k: int| 0 <= k < ps.len() && part_contains(#[trigger] ps[k], x)
}

pub open spec fn strictly_ascending(s: Seq<u32>) -> bool {
    forall|a: int, b: int| 0 <= a < b < s.len() ==> s[a] < s[b]
}

/// `s` lists, in ascending order and once each, the groups that `ps` cover.
pub open spec fn lists_groups(s: Seq<u32>, ps: Seq<Part>) -> bool {
    &&& strictly_ascending(s)
    &&& forall|x: u32| s.contains(x) <==> covers(ps, x)
}

/// The characters that `char::is_whitespace` accepts (Unicode `White_Space`).
pub open spec fn is_white(c: char) -> bool {
    ('\u{9}' <= c && c <= '\u{d}') || c == ' ' || c == '\u{85}' || c == '\u{a0}'
        || c == '\u{1680}' || ('\u{2000}' <= c && c <= '\u{200a}') || c == '\u{2028}'
        || c == '\u{2029}' || c == '\u{202f}' || c == '\u{205f}' || c == '\u{3000}'
}

/// `s` without its leading and trailing whitespace.
pub open spec fn trimmed(s: Seq<char>) -> Seq<char>
    decreases s.len(),
{
    if s.len() > 0 && is_white(s[0]) {
        trimmed(s.drop_first())
    } else if s.len() > 0 && is_white(s.last()) {
        trimmed(s.drop_last())
    } else {
        s
    }
}

pub proof fn lemma_digits_end(t: Seq<char>, i: int)
    requires
        0 <= i <= t.len(),
    ensures
        i <= digits_end(t, i) <= t.len(),
        forall|k: int| i <= k < digits_end(t, i) ==> is_digit(#[trigger] t[k]),
        digits_end(t, i) < t.len() ==> !is_digit(t[digits_end(t, i)]),
    decreases t.len() - i,
{
    if i < t.len() && is_digit(t[i]) {
        lemma_digits_end(t, i + 1);
    }
}

pub proof fn lemma_pad_end(t: Seq<char>, i: int)
    requires
        0 <= i <= t.len(),
    ensures
        i <= pad_end(t, i) <= t.len(),
        forall|k: int| i <= k < pad_end(t, i) ==> is_pad(#[trigger] t[k]),
        pad_end(t, i) < t.len() ==> !is_pad(t[pad_end(t, i)]),
    decreases t.len() - i,
{
    if i < t.len() && is_pad(t[i]) {
        lemma_pad_end(t, i + 1);
    }
}

fn digit(c: char) -> (r: bool)
    ensures
        r == is_digit(c),
{
    '0' <= c && c <= '9'
}

fn pad(c: char) -> (r: bool)
    ensures
        r == is_pad(c),
{
    c == ' ' || c == '\t' || c == '\r' || c == '\n'
}

fn skip_digits(t: &Vec<char>, i: usize) -> (j: usize)
    requires
        i <= t@.len(),
    ensures
        j as int == digits_end(t@, i as int),
{
    let mut k: usize = i;
    while k < t.len() && digit(t[k])
        invariant
            i <= k <= t@.len(),
            digits_end(t@, i as int) == digits_end(t@, k as int),
        decreases t@.len() - k,
    {
        k = k + 1;
    }
    k
}

fn skip_pad(t: &Vec<char>, i: usize) -> (j: usize)
    requires
        i <= t@.len(),
    ensures
        j as int == pad_end(t@, i as int),
{
    let mut k: usize = i;
    while k < t.len() && pad(t[k])
        invariant
            i <= k <= t@.len(),
            pad_end(t@, i as int) == pad_end(t@, k as int),
        decreases t@.len() - k,
    {
        k = k + 1;
    }
    k
}

/// The groups that a specification names, ascending and once each.
pub open spec fn group_listing(text: Seq<char>) -> Seq<u32> {
    choose|s: Seq<u32>| lists_groups(s, parts_of(text))
}

/// Two ascending sequences without repeats that hold the same values are
/// equal.
pub proof fn lemma_ascending_unique(a: Seq<u32>, b: Seq<u32>)
    requires
        strictly_ascending(a),
        strictly_ascending(b),
        forall|x: u32| a.contains(x) <==> b.contains(x),
    ensures
        a == b,
    decreases a.len(),
{
    if a.len() == 0 {
        if b.len() > 0 {
            assert(b.contains(b[0]));
        }
        assert(a == b);
    } else {
        assert(a.contains(a[0]));
        let j = choose|j: int| 0 <= j < b.len() && b[j] == a[0];
        assert(b.contains(b[0]));
        let i = choose|i: int| 0 <= i < a.len() && a[i] == b[0];
        assert(a[0] == b[0]) by {
            if i > 0 {
                assert(a[0] < a[i]);
            }
            if j > 0 {
                assert(b[0] < b[j]);
            }
        }
        let a1 = a.drop_first();
        let b1 = b.drop_first();
        assert forall|x: u32| a1.contains(x) implies b1.contains(x) by {
            let k = choose|k: int| 0 <= k < a1.len() && a1[k] == x;
            assert(a[k + 1] == x);
            assert(a.contains(x));
            let m = choose|m: int| 0 <= m < b.len() && b[m] == x;
            assert(a[0] < a[k + 1]);
            assert(m > 0);
            assert(b1[m - 1] == x);
        }
        assert forall|x: u32| b1.contains(x) implies a1.contains(x) by {
            let k = choose|k: int| 0 <= k < b1.len() && b1[k] == x;
            assert(b[k + 1] == x);
            assert(b.contains(x));
            let m = choose|m: int| 0 <= m < a.len() && a[m] == x;
            assert(b[0] < b[k + 1]);
            assert(m > 0);
            assert(a1[m - 1] == x);
        }
        lemma_ascending_unique(a1, b1);
        assert(a == seq![a[0]] + a1);
        assert(b == seq![b[0]] + b1);
    }
}

/// A listing of the groups of `text` is the one `group_listing` names.
pub proof fn lemma_group_listing(s: Seq<u32>, text: Seq<char>)
    requires
        lists_groups(s, parts_of(text)),
    ensures
        s == group_listing(text),
{
    let g = group_listing(text);
    assert(lists_groups(g, parts_of(text)));
    lemma_ascending_unique(s, g);
}

/// Reads a number at `i`, as `single_at` describes.
pub fn single(t: &Vec<char>, i: usize) -> (r: Option<(u32, usize)>)
    requires
        i <= t@.len(),
    ensures
        match r {
            Some((v, j)) => single_at(t@, i as int) == Some((v, j as int)),
            None => single_at(t@, i as int) is None,
        },
{
    let j = skip_digits(t, i);
    proof {
        lemma_digits_end(t@, i as int);
    }
    let mut v: u64 = 0;
    let mut big = false;
    let mut k: usize = i;
    while k < j
        invariant
            i <= k <= j <= t@.len(),
            j == digits_end(t@, i as int),
            forall|m: int| i <= m < j ==> is_digit(#[trigger] t@[m]),
            !big ==> v == decimal_value(t@.subrange(i as int, k as int)) && v <= u32::MAX,
            big ==> decimal_value(t@.subrange(i as int, k as int)) > u32::MAX,
        decreases j - k,
    {
        let c = t[k];
        assert(t@.subrange(i as int, k + 1).drop_last() == t@.subrange(i as int, k as int));
        assert(t@.subrange(i as int, k + 1).last() == c);
        assert(is_digit(t@[k as int]));
        if !big {
            v = v * 10 + (c as u64 - '0' as u64);
            if v > u32::MAX as u64 {
                big = true;
            }
        }
        k = k + 1;
    }
    if i < j && !big {
        Some((v as u32, j))
    } else {
        None
    }
}

/// Reads a range at `i`, as `range_at` describes.
pub fn range(t: &Vec<char>, i: usize) -> (r: Option<(Range, usize)>)
    requires
        i <= t@.len(),
    ensures
        match r {
            Some((g, m)) => range_at(t@, i as int) == Some((g, m as int)),
            None => range_at(t@, i as int) is None,
        },
{
    match single(t, i) {
        Some((a, j)) => {
            proof {
                lemma_digits_end(t@, i as int);
            }
            let k = skip_pad(t, j);
            proof {
                lemma_pad_end(t@, j as int);
            }
            if k < t.len() && t[k] == '-' {
                let l = skip_pad(t, k + 1);
                proof {
                    lemma_pad_end(t@, k + 1);
                }
                match single(t, l) {
                    Some((b, m)) => Some((Range { start: a, end: b }, m)),
                    None => None,
                }
            } else {
                None
            }
        },
        None => None,
    }
}

/// Reads a part at `i`, as `part_at` describes.
pub fn part(t: &Vec<char>, i: usize) -> (r: Option<(Part, usize)>)
    requires
        i <= t@.len(),
    ensures
        match r {
            Some((p, j)) => part_at(t@, i as int) == Some((p, j as int)),
            None => part_at(t@, i as int) is None,
        },
{
    match range(t, i) {
        Some((g, m)) => Some((Part::Range(g), m)),
        None => match single(t, i) {
            Some((a, j)) => Some((Part::Single(a), j)),
            None => None,
        },
    }
}

fn separator(t: &Vec<char>, i: usize) -> (r: Option<usize>)
    requires
        i <= t@.len(),
    ensures
        match r {
            Some(k) => separator_at(t@, i as int) == Some(k as int),
            None => separator_at(t@, i as int) is None,
        },
{
    let k = skip_pad(t, i);
    proof {
        lemma_pad_end(t@, i as int);
    }
    if k < t.len() && t[k] == ',' {
        let l = skip_pad(t, k + 1);
        Some(l)
    } else if i < t.len() && t[i] == ' ' {
        Some(i + 1)
    } else {
        None
    }
}

pub proof fn lemma_part_end(t: Seq<char>, i: int)
    requires
        0 <= i <= t.len(),
    ensures
        match part_at(t, i) {
            Some((p, j)) => i < j <= t.len(),
            None => true,
        },
{
    lemma_digits_end(t, i);
    let j = digits_end(t, i);
    lemma_pad_end(t, j);
    let k = pad_end(t, j);
    if k < t.len() {
        lemma_pad_end(t, k + 1);
        lemma_digits_end(t, pad_end(t, k + 1));
    }
}

pub open spec fn prefixed(ps: Seq<Part>, rest: Option<Seq<Part>>) -> Option<Seq<Part>> {
    match rest {
        Some(r) => Some(ps + r),
        None => None,
    }
}

/// Reads the parts of `t` from `i` on, as `list_from` describes: `None`
/// unless all of it is a list of parts.
pub fn list(t: &Vec<char>, i: usize) -> (r: Option<Vec<Part>>)
    requires
        i <= t@.len(),
    ensures
        match r {
            Some(ps) => list_from(t@, i as int) == Some(ps@),
            None => list_from(t@, i as int) is None,
        },
{
    let mut parts: Vec<Part> = Vec::new();
    let mut pos: usize = i;
    loop
        invariant
            pos <= t@.len(),
            list_from(t@, i as int) == prefixed(parts@, list_from(t@, pos as int)),
        decreases t@.len() - pos,
    {
        match part(t, pos) {
            None => {
                return None;
            },
            Some((p, j)) => {
                proof {
                    lemma_part_end(t@, pos as int);
                }
                let ghost before = parts@;
                parts.push(p);
                assert(parts@ == before + seq![p]);
                if j == t.len() {
                    assert(before + seq![p] == parts@);
                    return Some(parts);
                }
                match separator(t, j) {
                    None => {
                        return None;
                    },
                    Some(k) => {
                        if pos < k && k <= t.len() {
                            proof {
                                match list_from(t@, k as int) {
                                    Some(rest) => {
                                        assert(before + (seq![p] + rest) == parts@ + rest);
                                    },
                                    None => {},
                                }
                            }
                            pos = k;
                        } else {
                            return None;
                        }
                    },
                }
            },
        }
    }
}

/// The parts of a group-range specification, after trimming; the default
/// range `200-299` where the text is not a list of parts as a whole.
pub fn tree(input: &str) -> (r: Vec<Part>)
    ensures
        r@ == parts_of(input@),
{
    let t = trimmed_chars(input);
    match list(&t, 0) {
        Some(ps) => ps,
        None => vec![Part::Range(Range { start: 200, end: 299 })],
    }
}

/// The lowest group at or above `lo` that one of `ps` covers.
fn lowest_covered_from(ps: &Vec<Part>, lo: u32) -> (r: Option<u32>)
    ensures
        match r {
            Some(x) => {
                &&& lo <= x
                &&& covers(ps@, x)
                &&& forall|y: u32| lo <= y < x ==> !covers(ps@, y)
            },
            None => forall|y: u32| lo <= y ==> !covers(ps@, y),
        },
{
    let mut best: Option<u32> = None;
    let mut k: usize = 0;
    while k < ps.len()
        invariant
            k <= ps@.len(),
            match best {
                Some(x) => {
                    &&& lo <= x
                    &&& covers(ps@, x)
                    &&& forall|y: u32, m: int|
                        0 <= m < k && lo <= y < x ==> !#[trigger] part_contains(ps@[m], y)
                },
                None => forall|y: u32, m: int|
                    0 <= m < k && lo <= y ==> !#[trigger] part_contains(ps@[m], y),
            },
        decreases ps@.len() - k,
    {
        let candidate: Option<u32> = match ps[k] {
            Part::Single(v) => if lo <= v {
                Some(v)
            } else {
                None
            },
            Part::Range(g) => {
                let from = if g.start < lo {
                    lo
                } else {
                    g.start
                };
                if from <= g.end {
                    Some(from)
                } else {
                    None
                }
            },
        };
        proof {
            if let Some(c) = candidate {
                assert(part_contains(ps@[k as int], c));
            }
        }
        best = match (best, candidate) {
            (Some(x), Some(c)) => if c < x {
                Some(c)
            } else {
                Some(x)
            },
            (None, c) => c,
            (b, None) => b,
        };
        k = k + 1;
    }
    best
}

/// The groups that a specification names, ascending and without repeats.
/// A specification that does not parse as a whole names the groups 200 to
/// 299.
pub fn parse_group_range(range: &str) -> (r: Vec<u32>)
    ensures
        lists_groups(r@, parts_of(range@)),
{
    let parts = tree(range);
    let mut out: Vec<u32> = Vec::new();
    let mut lo: u64 = 0;
    while lo <= u32::MAX as u64
        invariant
            strictly_ascending(out@),
            forall|m: int| 0 <= m < out@.len() ==> covers(parts@, #[trigger] out@[m]),
            forall|m: int| 0 <= m < out@.len() ==> #[trigger] out@[m] < lo,
            forall|y: u32| y < lo && covers(parts@, y) ==> out@.contains(y),
            lo <= u32::MAX as u64 + 1,
        decreases u32::MAX as u64 + 1 - lo,
    {
        match lowest_covered_from(&parts, lo as u32) {
            Some(x) => {
                let ghost before = out@;
                out.push(x);
                proof {
                    assert forall|y: u32| y < x + 1 && covers(parts@, y) implies out@.contains(y) by {
                        if y < lo {
                            let m = choose|m: int| 0 <= m < before.len() && before[m] == y;
                            assert(out@[m] == y);
                        } else {
                            assert(out@[before.len() as int] == y);
                        }
                    }
                }
                lo = x as u64 + 1;
            },
            None => {
                lo = u32::MAX as u64 + 1;
            },
        }
    }
    assert forall|x: u32| out@.contains(x) implies covers(parts@, x) by {
        let m = choose|m: int| 0 <= m < out@.len() && out@[m] == x;
        assert(covers(parts@, out@[m]));
    }
    out
}

fn white(c: char) -> (r: bool)
    ensures
        r == is_white(c),
{
    ('\u{9}' <= c && c <= '\u{d}') || c == ' ' || c == '\u{85}' || c == '\u{a0}'
        || c == '\u{1680}' || ('\u{2000}' <= c && c <= '\u{200a}') || c == '\u{2028}'
        || c == '\u{2029}' || c == '\u{202f}' || c == '\u{205f}' || c == '\u{3000}'
}

/// The characters of `s` with leading and trailing whitespace removed.
pub fn trimmed_chars(s: &str) -> (r: Vec<char>)
    ensures
        r@ == trimmed(s@),
{
    let mut all: Vec<char> = Vec::new();
    for c in it: s.chars()
        invariant
            all@ == it.seq().take(it.index() as int),
    {
        all.push(c);
    }
    assert(all@ == s@);
    let n = all.len();
    let mut a: usize = 0;
    while a < n && white(all[a])
        invariant
            a <= n == all@.len(),
            trimmed(all@) == trimmed(all@.subrange(a as int, n as int)),
        decreases n - a,
    {
        assert(all@.subrange(a as int + 1, n as int) == all@.subrange(a as int, n as int).drop_first());
        a = a + 1;
    }
    let mut b: usize = n;
    while b > a && white(all[b - 1])
        invariant
            a <= b <= n == all@.len(),
            a < b ==> !is_white(all@[a as int]),
            trimmed(all@) == trimmed(all@.subrange(a as int, b as int)),
        decreases b - a,
    {
        assert(all@.subrange(a as int, b as int - 1) == all@.subrange(a as int, b as int).drop_last());
        b = b - 1;
    }
    let mut r: Vec<char> = Vec::new();
    let mut k: usize = a;
    while k < b
        invariant
            a <= k <= b <= n == all@.len(),
            r@ == all@.subrange(a as int, k as int),
        decreases b - k,
    {
        r.push(all[k]);
        k = k + 1;
    }
    r
}


/// A run of digits from `i` up to `j` ends there.
proof fn lemma_digits_end_at(t: Seq<char>, i: int, j: int)
    requires
        0 <= i <= j <= t.len(),
        forall|k: int| i <= k < j ==> is_digit(#[trigger] t[k]),
        j == t.len() || !is_digit(t[j]),
    ensures
        digits_end(t, i) == j,
    decreases j - i,
{
    if i < j {
        lemma_digits_end_at(t, i + 1, j);
    }
}

pub open spec fn all_digits(d: Seq<char>) -> bool {
    forall|k: int| 0 <= k < d.len() ==> is_digit(#[trigger] d[k])
}

/// A run of padding from `i` up to `j` ends there.
proof fn lemma_pad_end_at(t: Seq<char>, i: int, j: int)
    requires
        0 <= i <= j <= t.len(),
        forall|k: int| i <= k < j ==> is_pad(#[trigger] t[k]),
        j == t.len() || !is_pad(t[j]),
    ensures
        pad_end(t, i) == j,
    decreases j - i,
{
    if i < j {
        lemma_pad_end_at(t, i + 1, j);
    }
}

pub open spec fn all_white(s: Seq<char>) -> bool {
    forall|k: int| 0 <= k < s.len() ==> is_white(#[trigger] s[k])
}

pub open spec fn all_pad(s: Seq<char>) -> bool {
    forall|k: int| 0 <= k < s.len() ==> is_pad(#[trigger] s[k])
}

/// Trimming removes whitespace around text that neither starts nor ends
/// with whitespace, and only that.
proof fn lemma_trim_wrapped(w1: Seq<char>, s: Seq<char>, w2: Seq<char>)
    requires
        s.len() > 0,
        !is_white(s[0]),
        !is_white(s.last()),
        all_white(w1),
        all_white(w2),
    ensures
        trimmed(w1 + s + w2) == s,
    decreases w1.len() + w2.len(),
{
    let t = w1 + s + w2;
    if w1.len() > 0 {
        assert(t[0] == w1[0]);
        assert(t.drop_first() == w1.drop_first() + s + w2);
        lemma_trim_wrapped(w1.drop_first(), s, w2);
    } else if w2.len() > 0 {
        assert(t[0] == s[0]);
        assert(t.last() == w2.last());
        assert(t.drop_last() == w1 + s + w2.drop_last());
        lemma_trim_wrapped(w1, s, w2.drop_last());
    } else {
        assert(t == s);
    }
}

/// Text of the form `a-b`, two runs of digits around a dash, with optional
/// padding around the dash and whitespace around the whole, names exactly
/// the groups from `a` to `b`.
pub proof fn lemma_dash_range_text(
    w1: Seq<char>,
    da: Seq<char>,
    p1: Seq<char>,
    p2: Seq<char>,
    db: Seq<char>,
    w2: Seq<char>,
)
    requires
        da.len() > 0,
        db.len() > 0,
        all_digits(da),
        all_digits(db),
        all_pad(p1),
        all_pad(p2),
        all_white(w1),
        all_white(w2),
        decimal_value(da) <= decimal_value(db) <= u32::MAX,
    ensures
        ({
            let text = w1 + da + p1 + seq!['-'] + p2 + db + w2;
            let (a, b) = (decimal_value(da) as u32, decimal_value(db) as u32);
            &&& parts_of(text) == seq![Part::Range(Range { start: a, end: b })]
            &&& forall|x: u32| covers(parts_of(text), x) <==> a <= x <= b
        }),
{
    let t = da + p1 + seq!['-'] + p2 + db;
    let text = w1 + da + p1 + seq!['-'] + p2 + db + w2;
    let n = da.len() as int;
    let d = n + p1.len();
    let e = d + 1 + p2.len();
    let a = decimal_value(da) as u32;
    let b = decimal_value(db) as u32;
    assert(t[0] == da[0]);
    assert(t.last() == db.last());
    assert(is_digit(db[db.len() - 1]));
    assert(text == w1 + t + w2);
    lemma_trim_wrapped(w1, t, w2);
    assert forall|k: int| 0 <= k < n implies is_digit(#[trigger] t[k]) by {
        assert(t[k] == da[k]);
    }
    assert forall|k: int| n <= k < d implies is_pad(#[trigger] t[k]) by {
        assert(t[k] == p1[k - n]);
    }
    assert forall|k: int| d + 1 <= k < e implies is_pad(#[trigger] t[k]) by {
        assert(t[k] == p2[k - d - 1]);
    }
    assert forall|k: int| e <= k < t.len() implies is_digit(#[trigger] t[k]) by {
        assert(t[k] == db[k - e]);
    }
    assert(t[d] == '-');
    lemma_digits_end_at(t, 0, n);
    assert(t.subrange(0, n) == da);
    assert(single_at(t, 0) == Some((a, n)));
    lemma_pad_end_at(t, n, d);
    lemma_pad_end_at(t, d + 1, e);
    lemma_digits_end_at(t, e, t.len() as int);
    assert(t.subrange(e, t.len() as int) == db);
    assert(single_at(t, e) == Some((b, t.len() as int)));
    assert(range_at(t, 0) == Some((Range { start: a, end: b }, t.len() as int)));
    assert(list_from(t, 0) == Some(seq![Part::Range(Range { start: a, end: b })]));
    assert forall|x: u32| covers(parts_of(text), x) <==> a <= x <= b by {
        if a <= x <= b {
            assert(part_contains(parts_of(text)[0], x));
        }
    }
}

/// Text that is empty once trimmed names the default groups, 200 to 299.
pub proof fn lemma_blank_text(text: Seq<char>)
    requires
        trimmed(text).len() == 0,
    ensures
        parts_of(text) == seq![default_part()],
        forall|x: u32| covers(parts_of(text), x) <==> 200 <= x <= 299,
{
    let t = trimmed(text);
    lemma_digits_end(t, 0);
    assert(list_from(t, 0) is None);
    assert forall|x: u32| covers(parts_of(text), x) <==> 200 <= x <= 299 by {
        if 200 <= x <= 299 {
            assert(part_contains(parts_of(text)[0], x));
        }
    }
}

/// The characters that a list of parts is written with.
pub open spec fn in_alphabet(c: char) -> bool {
    is_digit(c) || is_pad(c) || c == ',' || c == '-'
}

proof fn lemma_part_alphabet(t: Seq<char>, i: int)
    requires
        0 <= i <= t.len(),
        part_at(t, i) is Some,
    ensures
        match part_at(t, i) {
            Some((_, j)) => forall|k: int| i <= k < j ==> in_alphabet(#[trigger] t[k]),
            None => true,
        },
{
    lemma_digits_end(t, i);
    let j = digits_end(t, i);
    lemma_pad_end(t, j);
    let k = pad_end(t, j);
    if k < t.len() {
        lemma_pad_end(t, k + 1);
        lemma_digits_end(t, pad_end(t, k + 1));
    }
}

proof fn lemma_separator_alphabet(t: Seq<char>, i: int)
    requires
        0 <= i <= t.len(),
        separator_at(t, i) is Some,
    ensures
        forall|k: int| i <= k < separator_at(t, i)->0 ==> in_alphabet(#[trigger] t[k]),
{
    lemma_pad_end(t, i);
    let k = pad_end(t, i);
    if k < t.len() {
        lemma_pad_end(t, k + 1);
    }
}

proof fn lemma_list_alphabet(t: Seq<char>, i: int)
    requires
        0 <= i <= t.len(),
        list_from(t, i) is Some,
    ensures
        forall|k: int| i <= k < t.len() ==> in_alphabet(#[trigger] t[k]),
    decreases t.len() - i,
{
    lemma_part_alphabet(t, i);
    lemma_part_end(t, i);
    let (_, j) = part_at(t, i)->0;
    if j < t.len() {
        lemma_separator_alphabet(t, j);
        let k = separator_at(t, j)->0;
        lemma_list_alphabet(t, k);
    }
}

/// Trimming keeps every character that is not whitespace.
proof fn lemma_trimmed_keeps(s: Seq<char>, k: int)
    requires
        0 <= k < s.len(),
        !is_white(s[k]),
    ensures
        exists|m: int| 0 <= m < trimmed(s).len() && trimmed(s)[m] == s[k],
    decreases s.len(),
{
    if s.len() > 0 && is_white(s[0]) {
        assert(s.drop_first()[k - 1] == s[k]);
        lemma_trimmed_keeps(s.drop_first(), k - 1);
        assert(trimmed(s) == trimmed(s.drop_first()));
    } else if s.len() > 0 && is_white(s.last()) {
        assert(s.drop_last()[k] == s[k]);
        lemma_trimmed_keeps(s.drop_last(), k);
        assert(trimmed(s) == trimmed(s.drop_last()));
    } else {
        assert(trimmed(s) == s);
        assert(trimmed(s)[k] == s[k]);
    }
}

/// Text that holds a character other than digits, whitespace, commas and
/// dashes names the default groups, 200 to 299: a part that does not parse
/// discards the whole specification.
pub proof fn lemma_stray_character(text: Seq<char>, k: int)
    requires
        0 <= k < text.len(),
        !is_digit(text[k]),
        !is_white(text[k]),
        text[k] != ',',
        text[k] != '-',
    ensures
        parts_of(text) == seq![default_part()],
{
    lemma_trimmed_keeps(text, k);
    let t = trimmed(text);
    if list_from(t, 0) is Some {
        let m = choose|m: int| 0 <= m < t.len() && t[m] == text[k];
        lemma_list_alphabet(t, 0);
        assert(in_alphabet(t[m]));
    }
}

/// A run of digits starts at `k` (reading from `i`).
pub open spec fn run_starts(t: Seq<char>, i: int, k: int) -> bool {
    is_digit(t[k]) && (k == i || !is_digit(t[k - 1]))
}

/// Every run of digits that a part holds is a number that fits in `u32`.
proof fn lemma_part_runs(t: Seq<char>, i: int)
    requires
        0 <= i <= t.len(),
        part_at(t, i) is Some,
    ensures
        match part_at(t, i) {
            Some((_, j)) => forall|k: int|
                i <= k < j && #[trigger] run_starts(t, i, k) ==> single_at(t, k) is Some,
            None => true,
        },
{
    lemma_digits_end(t, i);
    let j1 = digits_end(t, i);
    lemma_pad_end(t, j1);
    let kk = pad_end(t, j1);
    if kk < t.len() {
        lemma_pad_end(t, kk + 1);
        lemma_digits_end(t, pad_end(t, kk + 1));
    }
    let (_, j) = part_at(t, i)->0;
    assert forall|k: int| i <= k < j && #[trigger] run_starts(t, i, k) implies single_at(
        t,
        k,
    ) is Some by {
        if k > i {
            if k < j1 {
                assert(is_digit(t[k - 1]));
            } else {
                let l = pad_end(t, kk + 1);
                assert(range_at(t, i) is Some);
                if k < kk {
                    assert(is_pad(t[k]));
                } else if k == kk {
                    assert(t[k] == '-');
                } else if k < l {
                    assert(is_pad(t[k]));
                } else if k > l {
                    assert(is_digit(t[k - 1]));
                }
            }
        }
    }
}

/// Every run of digits in a list of parts is a number that fits in `u32`.
proof fn lemma_list_runs(t: Seq<char>, i: int)
    requires
        0 <= i <= t.len(),
        list_from(t, i) is Some,
    ensures
        forall|k: int| i <= k < t.len() && #[trigger] run_starts(t, i, k) ==> single_at(t, k) is Some,
    decreases t.len() - i,
{
    lemma_part_runs(t, i);
    lemma_part_end(t, i);
    let (_, j) = part_at(t, i)->0;
    if j < t.len() {
        lemma_separator_alphabet(t, j);
        lemma_pad_end(t, j);
        let m = separator_at(t, j)->0;
        lemma_list_runs(t, m);
        assert forall|k: int| i <= k < t.len() && #[trigger] run_starts(t, i, k) implies single_at(
            t,
            k,
        ) is Some by {
            if k >= m {
                assert(run_starts(t, m, k));
            } else if k >= j {
                assert(in_alphabet(t[k]));
                let pk = pad_end(t, j);
                if pk < t.len() && t[pk] == ',' {
                    lemma_pad_end(t, pk + 1);
                }
            }
        }
    }
}

/// A number too large for `u32` discards the whole specification: text
/// that, once trimmed, holds a run of digits worth more than `u32::MAX`
/// names the default groups, 200 to 299.
pub proof fn lemma_oversized_number(text: Seq<char>, k: int)
    requires
        0 <= k < trimmed(text).len(),
        run_starts(trimmed(text), 0, k),
        decimal_value(trimmed(text).subrange(k, digits_end(trimmed(text), k))) > u32::MAX,
    ensures
        parts_of(text) == seq![default_part()],
{
    let t = trimmed(text);
    if list_from(t, 0) is Some {
        lemma_list_runs(t, 0);
        assert(single_at(t, k) is Some);
    }
}

} // verus!
