//! Character-level helpers shared by the tree model and the passes.

use vstd::prelude::*;
use vstd::string::StringExecFns;

verus! {

/// `String::push` appends exactly one character to the end of the string.
pub assume_specification[ String::push ](s: &mut String, c: char)
    ensures
        final(s)@ == old(s)@.push(c),
;

/// Whether two strings hold the same characters.
pub fn str_eq(a: &str, b: &str) -> (eq: bool)
    ensures
        eq == (a@ == b@),
{
    a.to_owned() == b.to_owned()
}

/// The characters of `s`, in order.
pub fn chars_of(s: &str) -> (out: Vec<char>)
    ensures
        out@ == s@,
{
    let mut out: Vec<char> = Vec::new();
    for c in it: s.chars()
        invariant
            out@ == it.seq().take(it.index() as int),
            it.seq() == s@,
    {
        out.push(c);
    }
    assert(out@ == s@);
    out
}

/// The string made of the characters `v[from..to]`.
pub fn string_of(v: &Vec<char>, from: usize, to: usize) -> (out: String)
    requires
        from <= to <= v.len(),
    ensures
        out@ == v@.subrange(from as int, to as int),
{
    let mut out = String::new();
    let mut i: usize = from;
    while i < to
        invariant
            from <= i <= to <= v.len(),
            out@ == v@.subrange(from as int, i as int),
        decreases to - i,
    {
        out.push(v[i]);
        i += 1;
        assert(out@ == v@.subrange(from as int, i as int));
    }
    out
}

/// The characters that separate tokens: space, tab, line feed, form feed and
/// carriage return.
pub open spec fn is_ascii_ws(c: char) -> bool {
    c == ' ' || c == '\t' || c == '\n' || c == '\x0C' || c == '\r'
}

/// Whether `c` separates tokens.
pub fn is_ascii_whitespace(c: char) -> (ws: bool)
    ensures
        ws == is_ascii_ws(c),
{
    c == ' ' || c == '\t' || c == '\n' || c == '\x0C' || c == '\r'
}

/// `s[i..j]` is a token: a run of characters other than whitespace, not empty,
/// that cannot be extended on either side.
pub open spec fn is_token(s: Seq<char>, i: int, j: int) -> bool {
    &&& 0 <= i < j <= s.len()
    &&& forall|k: int| i <= k < j ==> !is_ascii_ws(#[trigger] s[k])
    &&& (i == 0 || is_ascii_ws(s[i - 1]))
    &&& (j == s.len() || is_ascii_ws(s[j]))
}

/// `tok` is one of the whitespace-separated tokens of `s`.
pub open spec fn has_token(s: Seq<char>, tok: Seq<char>) -> bool {
    exists|i: int, j: int| is_token(s, i, j) && #[trigger] s.subrange(i, j) == tok
}

/// Whether `s[from..to]` and `t` hold the same characters.
pub fn range_equals(s: &Vec<char>, from: usize, to: usize, t: &Vec<char>) -> (same: bool)
    requires
        from <= to <= s.len(),
    ensures
        same == (s@.subrange(from as int, to as int) == t@),
{
    if to - from != t.len() {
        return false;
    }
    let mut k: usize = 0;
    while k < t.len()
        invariant
            from <= to <= s.len(),
            to - from == t.len(),
            k <= t.len(),
            forall|m: int| 0 <= m < k ==> s@[from + m] == t@[m],
        decreases t.len() - k,
    {
        if s[from + k] != t[k] {
            assert(s@.subrange(from as int, to as int)[k as int] != t@[k as int]);
            return false;
        }
        k += 1;
    }
    assert(s@.subrange(from as int, to as int) =~= t@);
    true
}

/// The end of the run of non-whitespace characters that starts at `from`.
pub fn token_end(s: &Vec<char>, from: usize) -> (to: usize)
    requires
        from <= s.len(),
    ensures
        from <= to <= s.len(),
        forall|k: int| from <= k < to ==> !is_ascii_ws(#[trigger] s@[k]),
        to == s.len() || is_ascii_ws(s@[to as int]),
{
    let mut j: usize = from;
    while j < s.len() && !is_ascii_whitespace(s[j])
        invariant
            from <= j <= s.len(),
            forall|k: int| from <= k < j ==> !is_ascii_ws(#[trigger] s@[k]),
        decreases s.len() - j,
    {
        j += 1;
    }
    j
}

/// The pair `r` stands for the range `i..j`.
pub open spec fn is_range(r: (usize, usize), i: int, j: int) -> bool {
    r.0 == i && r.1 == j
}

/// The whitespace-separated tokens of `s`, as ranges of indices, in order.
pub fn token_ranges(s: &Vec<char>) -> (out: Vec<(usize, usize)>)
    ensures
        forall|n: int| 0 <= n < out.len() ==> is_token(s@, (#[trigger] out@[n]).0 as int, out@[n].1 as int),
        forall|n: int, m: int| 0 <= n < m < out.len() ==> out@[n].1 < out@[m].0,
        forall|i: int, j: int|
            is_token(s@, i, j) ==> exists|n: int|
                0 <= n < out.len() && #[trigger] is_range(out@[n], i, j),
{
    let mut out: Vec<(usize, usize)> = Vec::new();
    let mut i: usize = 0;
    while i < s.len()
        invariant
            i <= s.len(),
            i == 0 || is_ascii_ws(s@[i - 1]) || i == s.len(),
            forall|n: int| 0 <= n < out.len() ==> is_token(s@, (#[trigger] out@[n]).0 as int, out@[n].1 as int),
            forall|n: int| 0 <= n < out.len() ==> (#[trigger] out@[n]).1 <= i,
            forall|n: int| 0 <= n < out.len() && i < s.len() ==> (#[trigger] out@[n]).1 < i,
            forall|n: int, m: int| 0 <= n < m < out.len() ==> out@[n].1 < out@[m].0,
            forall|a: int, b: int|
                is_token(s@, a, b) && a < i ==> exists|n: int|
                    0 <= n < out.len() && #[trigger] is_range(out@[n], a, b),
        decreases s.len() - i,
    {
        if is_ascii_whitespace(s[i]) {
            proof {
                assert forall|a: int, b: int| is_token(s@, a, b) && a < i + 1 implies exists|n: int|
                    0 <= n < out.len() && #[trigger] is_range(out@[n], a, b) by {
                    if a == i {
                        assert(!is_ascii_ws(s@[a]));
                    }
                }
            }
            i += 1;
        } else {
            let j = token_end(s, i);
            let ghost before = out@;
            out.push((i, j));
            proof {
                assert(is_token(s@, i as int, j as int));
                assert forall|a: int, b: int| is_token(s@, a, b) && a < (if j < s.len() {
                    j + 1
                } else {
                    j as int
                }) implies exists|n: int|
                    0 <= n < out.len() && #[trigger] is_range(out@[n], a, b) by {
                    if a < i {
                        let n = choose|n: int|
                            0 <= n < before.len() && #[trigger] is_range(before[n], a, b);
                        assert(is_range(out@[n], a, b));
                    } else if a == i {
                        if b < j {
                            assert(!is_ascii_ws(s@[b]));
                        } else if b > j {
                            assert(!is_ascii_ws(s@[j as int]));
                        }
                        assert(is_range(out@[out.len() - 1], a, b));
                    } else {
                        assert(!is_ascii_ws(s@[a - 1]));
                    }
                }
            }
            if j < s.len() {
                i = j + 1;
            } else {
                i = j;
            }
        }
    }
    out
}

/// Whether `tok` is one of the whitespace-separated tokens of `s`.
pub fn contains_token(s: &Vec<char>, tok: &Vec<char>) -> (found: bool)
    ensures
        found == has_token(s@, tok@),
{
    let ranges = token_ranges(s);
    let mut n: usize = 0;
    while n < ranges.len()
        invariant
            n <= ranges.len(),
            forall|m: int| 0 <= m < ranges.len() ==> is_token(s@, (#[trigger] ranges@[m]).0 as int, ranges@[m].1 as int),
            forall|i: int, j: int|
                is_token(s@, i, j) ==> exists|m: int|
                    0 <= m < ranges.len() && #[trigger] is_range(ranges@[m], i, j),
            forall|m: int|
                0 <= m < n ==> s@.subrange((#[trigger] ranges@[m]).0 as int, ranges@[m].1 as int) != tok@,
        decreases ranges.len() - n,
    {
        let (i, j) = ranges[n];
        assert(is_token(s@, ranges@[n as int].0 as int, ranges@[n as int].1 as int));
        if range_equals(s, i, j, tok) {
            assert(is_token(s@, i as int, j as int) && s@.subrange(i as int, j as int) == tok@);
            return true;
        }
        n += 1;
    }
    proof {
        if has_token(s@, tok@) {
            let (i, j) = choose|i: int, j: int| is_token(s@, i, j) && #[trigger] s@.subrange(i, j) == tok@;
            let m = choose|m: int|
                0 <= m < ranges.len() && #[trigger] is_range(ranges@[m], i, j);
            assert(s@.subrange(ranges@[m].0 as int, ranges@[m].1 as int) != tok@);
        }
    }
    false
}

/// The decimal digit for a number below ten.
pub open spec fn digit(d: nat) -> char {
    if d == 0 {
        '0'
    } else if d == 1 {
        '1'
    } else if d == 2 {
        '2'
    } else if d == 3 {
        '3'
    } else if d == 4 {
        '4'
    } else if d == 5 {
        '5'
    } else if d == 6 {
        '6'
    } else if d == 7 {
        '7'
    } else if d == 8 {
        '8'
    } else {
        '9'
    }
}

/// The decimal numeral of `n`, without leading zeros.
pub open spec fn decimal(n: nat) -> Seq<char>
    decreases n,
{
    if n < 10 {
        seq![digit(n)]
    } else {
        decimal(n / 10).push(digit(n % 10))
    }
}

/// The decimal digit for a number below ten.
pub fn digit_char(d: u64) -> (c: char)
    requires
        d < 10,
    ensures
        c == digit(d as nat),
{
    if d == 0 {
        '0'
    } else if d == 1 {
        '1'
    } else if d == 2 {
        '2'
    } else if d == 3 {
        '3'
    } else if d == 4 {
        '4'
    } else if d == 5 {
        '5'
    } else if d == 6 {
        '6'
    } else if d == 7 {
        '7'
    } else if d == 8 {
        '8'
    } else {
        '9'
    }
}

/// Appends the decimal numeral of `n` to `out`.
pub fn push_decimal(out: &mut String, n: u64)
    ensures
        final(out)@ == old(out)@ + decimal(n as nat),
    decreases n,
{
    if n >= 10 {
        push_decimal(out, n / 10);
    }
    out.push(digit_char(n % 10));
    assert(out@ =~= old(out)@ + decimal(n as nat));
}

/// The items joined, with `sep` between every two.
pub open spec fn joined(items: Seq<Seq<char>>, sep: Seq<char>) -> Seq<char>
    decreases items.len(),
{
    if items.len() == 0 {
        Seq::empty()
    } else if items.len() == 1 {
        items[0]
    } else {
        joined(items.drop_last(), sep) + sep + items.last()
    }
}

/// The views of the strings of a list.
pub open spec fn views(items: Seq<String>) -> Seq<Seq<char>> {
    items.map_values(|s: String| s@)
}

/// The strings joined, with `sep` between every two.
pub fn join(items: &Vec<String>, sep: &str) -> (out: String)
    ensures
        out@ == joined(views(items@), sep@),
{
    let mut out = String::new();
    let mut i: usize = 0;
    while i < items.len()
        invariant
            i <= items.len(),
            out@ == joined(views(items@).subrange(0, i as int), sep@),
        decreases items.len() - i,
    {
        let ghost prev = views(items@).subrange(0, i as int);
        let ghost next = views(items@).subrange(0, i + 1);
        proof {
            assert(next.drop_last() =~= prev);
            assert(next.last() == items@[i as int]@);
        }
        if i > 0 {
            out.append(sep);
        }
        out.append(items[i].as_str());
        i += 1;
    }
    assert(views(items@).subrange(0, i as int) =~= views(items@));
    out
}

/// The characters with the Unicode property `White_Space`.
pub open spec fn is_ws(c: char) -> bool {
    ||| ('\u{9}' <= c && c <= '\u{D}')
    ||| c == ' '
    ||| c == '\u{85}'
    ||| c == '\u{A0}'
    ||| c == '\u{1680}'
    ||| ('\u{2000}' <= c && c <= '\u{200A}')
    ||| c == '\u{2028}'
    ||| c == '\u{2029}'
    ||| c == '\u{202F}'
    ||| c == '\u{205F}'
    ||| c == '\u{3000}'
}

/// Whether `c` has the Unicode property `White_Space`.
pub fn is_whitespace(c: char) -> (ws: bool)
    ensures
        ws == is_ws(c),
{
    ('\u{9}' <= c && c <= '\u{D}') || c == ' ' || c == '\u{85}' || c == '\u{A0}' || c == '\u{1680}'
        || ('\u{2000}' <= c && c <= '\u{200A}') || c == '\u{2028}' || c == '\u{2029}' || c
        == '\u{202F}' || c == '\u{205F}' || c == '\u{3000}'
}

/// `s` without its leading whitespace.
pub open spec fn trim_start(s: Seq<char>) -> Seq<char>
    decreases s.len(),
{
    if s.len() > 0 && is_ws(s[0]) {
        trim_start(s.drop_first())
    } else {
        s
    }
}

/// `s` without its trailing whitespace.
pub open spec fn trim_end(s: Seq<char>) -> Seq<char>
    decreases s.len(),
{
    if s.len() > 0 && is_ws(s.last()) {
        trim_end(s.drop_last())
    } else {
        s
    }
}

/// `s` without leading and trailing whitespace.
pub open spec fn trim(s: Seq<char>) -> Seq<char> {
    trim_end(trim_start(s))
}

/// The characters `v[from..to]` as a list of their own.
pub fn slice(v: &Vec<char>, from: usize, to: usize) -> (out: Vec<char>)
    requires
        from <= to <= v.len(),
    ensures
        out@ == v@.subrange(from as int, to as int),
{
    let mut out: Vec<char> = Vec::new();
    let mut i: usize = from;
    while i < to
        invariant
            from <= i <= to <= v.len(),
            out@ == v@.subrange(from as int, i as int),
        decreases to - i,
    {
        out.push(v[i]);
        i += 1;
        assert(out@ =~= v@.subrange(from as int, i as int));
    }
    out
}

/// Where the text of `v` starts once leading whitespace is left out.
pub fn trim_start_index(v: &Vec<char>) -> (i: usize)
    ensures
        i <= v.len(),
        trim_start(v@) == v@.subrange(i as int, v.len() as int),
{
    let mut i: usize = 0;
    assert(v@.subrange(0, v.len() as int) =~= v@);
    while i < v.len() && is_whitespace(v[i])
        invariant
            i <= v.len(),
            trim_start(v@) == trim_start(v@.subrange(i as int, v.len() as int)),
        decreases v.len() - i,
    {
        assert(v@.subrange(i as int, v.len() as int).drop_first() =~= v@.subrange(
            i + 1,
            v.len() as int,
        ));
        i += 1;
    }
    i
}

/// Where the text of `v[from..]` ends once trailing whitespace is left out.
pub fn trim_end_index(v: &Vec<char>, from: usize) -> (j: usize)
    requires
        from <= v.len(),
    ensures
        from <= j <= v.len(),
        trim_end(v@.subrange(from as int, v.len() as int)) == v@.subrange(from as int, j as int),
{
    let mut j: usize = v.len();
    while j > from && is_whitespace(v[j - 1])
        invariant
            from <= j <= v.len(),
            trim_end(v@.subrange(from as int, v.len() as int)) == trim_end(
                v@.subrange(from as int, j as int),
            ),
        decreases j,
    {
        assert(v@.subrange(from as int, j as int).drop_last() =~= v@.subrange(
            from as int,
            j - 1,
        ));
        j -= 1;
    }
    j
}

/// `v` without leading and trailing whitespace.
pub fn trimmed(v: &Vec<char>) -> (out: Vec<char>)
    ensures
        out@ == trim(v@),
{
    let i = trim_start_index(v);
    let j = trim_end_index(v, i);
    slice(v, i, j)
}

/// `v` without leading whitespace.
pub fn trimmed_start(v: &Vec<char>) -> (out: Vec<char>)
    ensures
        out@ == trim_start(v@),
{
    let i = trim_start_index(v);
    slice(v, i, v.len())
}

/// `pat` stands in `s` at index `i`.
pub open spec fn occurs_at(s: Seq<char>, pat: Seq<char>, i: int) -> bool {
    0 <= i && i + pat.len() <= s.len() && s.subrange(i, i + pat.len()) == pat
}

/// `s` starts with `pat`.
pub open spec fn has_prefix(s: Seq<char>, pat: Seq<char>) -> bool {
    occurs_at(s, pat, 0)
}

/// `s` ends with `pat`.
pub open spec fn has_suffix(s: Seq<char>, pat: Seq<char>) -> bool {
    occurs_at(s, pat, s.len() - pat.len())
}

/// `pat` stands somewhere in `s`.
pub open spec fn has_substring(s: Seq<char>, pat: Seq<char>) -> bool {
    exists|i: int| occurs_at(s, pat, i)
}

/// `i` is the first index at which `pat` stands in `s`.
pub open spec fn first_occurrence(s: Seq<char>, pat: Seq<char>, i: int) -> bool {
    occurs_at(s, pat, i) && forall|j: int| 0 <= j < i ==> !occurs_at(s, pat, j)
}

/// Whether `pat` stands in `s` at index `i`.
pub fn matches_at(s: &Vec<char>, pat: &Vec<char>, i: usize) -> (yes: bool)
    ensures
        yes == occurs_at(s@, pat@, i as int),
{
    if i > s.len() || pat.len() > s.len() - i {
        return false;
    }
    range_equals(s, i, i + pat.len(), pat)
}

/// Whether `s` starts with `pat`.
pub fn starts_with(s: &Vec<char>, pat: &Vec<char>) -> (yes: bool)
    ensures
        yes == has_prefix(s@, pat@),
{
    matches_at(s, pat, 0)
}

/// Whether `s` ends with `pat`.
pub fn ends_with(s: &Vec<char>, pat: &Vec<char>) -> (yes: bool)
    ensures
        yes == has_suffix(s@, pat@),
{
    if pat.len() > s.len() {
        return false;
    }
    matches_at(s, pat, s.len() - pat.len())
}

/// The first index at which `pat` stands in `s`, if it stands anywhere.
pub fn find(s: &Vec<char>, pat: &Vec<char>) -> (at: Option<usize>)
    ensures
        match at {
            Some(i) => first_occurrence(s@, pat@, i as int),
            None => !has_substring(s@, pat@),
        },
{
    if pat.len() > s.len() {
        return None;
    }
    let last = s.len() - pat.len();
    let mut i: usize = 0;
    while i < last
        invariant
            i <= last,
            last == s.len() - pat.len(),
            forall|j: int| 0 <= j < i ==> !occurs_at(s@, pat@, j),
        decreases last - i,
    {
        if matches_at(s, pat, i) {
            return Some(i);
        }
        i += 1;
    }
    if matches_at(s, pat, last) {
        Some(last)
    } else {
        None
    }
}

/// Whether `pat` stands somewhere in `s`.
pub fn contains(s: &Vec<char>, pat: &Vec<char>) -> (yes: bool)
    ensures
        yes == has_substring(s@, pat@),
{
    find(s, pat).is_some()
}

/// The string made of all characters of `v`.
pub fn to_string(v: &Vec<char>) -> (out: String)
    ensures
        out@ == v@,
{
    let out = string_of(v, 0, v.len());
    assert(v@.subrange(0, v.len() as int) =~= v@);
    out
}

/// The whitespace-separated tokens of `s`, as a set.
pub open spec fn token_set(s: Seq<char>) -> Set<Seq<char>> {
    Set::new(|t: Seq<char>| has_token(s, t))
}

/// The elements of a list with one more element are those of the list and
/// that element.
pub proof fn lemma_push_to_set<A>(s: Seq<A>, x: A)
    ensures
        s.push(x).to_set() == s.to_set().insert(x),
{
    let t = s.push(x);
    assert forall|y: A| t.contains(y) <==> (s.contains(y) || y == x) by {
        if s.contains(y) {
            let j = choose|j: int| 0 <= j < s.len() && s[j] == y;
            assert(t[j] == y);
        }
        if y == x {
            assert(t[t.len() - 1] == y);
        }
        if t.contains(y) {
            let j = choose|j: int| 0 <= j < t.len() && t[j] == y;
            if j < s.len() {
                assert(s[j] == y);
            }
        }
    }
    assert(t.to_set() =~= s.to_set().insert(x));
}

/// The whitespace-separated tokens of `s`, in order.
pub fn tokens(s: &Vec<char>) -> (out: Vec<String>)
    ensures
        views(out@).to_set() == token_set(s@),
{
    let ranges = token_ranges(s);
    let mut out: Vec<String> = Vec::new();
    let mut n: usize = 0;
    while n < ranges.len()
        invariant
            n <= ranges.len(),
            out@.len() == n,
            forall|m: int|
                0 <= m < ranges.len() ==> is_token(s@, (#[trigger] ranges@[m]).0 as int, ranges@[m].1 as int),
            forall|m: int|
                0 <= m < n ==> (#[trigger] out@[m])@ == s@.subrange(ranges@[m].0 as int, ranges@[m].1 as int),
        decreases ranges.len() - n,
    {
        let (i, j) = ranges[n];
        assert(is_token(s@, ranges@[n as int].0 as int, ranges@[n as int].1 as int));
        out.push(string_of(s, i, j));
        n += 1;
    }
    proof {
        let v = views(out@);
        assert forall|t: Seq<char>| v.to_set().contains(t) <==> token_set(s@).contains(t) by {
            if v.contains(t) {
                let m = choose|m: int| 0 <= m < v.len() && v[m] == t;
                assert(out@[m]@ == t);
                assert(is_token(s@, ranges@[m].0 as int, ranges@[m].1 as int));
            }
            if has_token(s@, t) {
                let (i, j) = choose|i: int, j: int| is_token(s@, i, j) && #[trigger] s@.subrange(i, j) == t;
                let m = choose|m: int| 0 <= m < ranges.len() && #[trigger] is_range(ranges@[m], i, j);
                assert(out@[m]@ == t);
                assert(v[m] == t);
            }
        }
        assert(v.to_set() =~= token_set(s@));
    }
    out
}

} // verus!
