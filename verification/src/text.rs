//! Character-level text utilities on `Seq<char>` with executable counterparts:
//! Unicode whitespace, trimming, searching, line splitting and string building.

use vstd::prelude::*;

verus! {

broadcast use vstd::string::group_string_axioms;

/// Unicode `White_Space` (what `char::is_whitespace` tests).
pub open spec fn is_ws(c: char) -> bool {
    let u = c as u32;
    ||| 0x09 <= u <= 0x0D
    ||| u == 0x20
    ||| u == 0x85
    ||| u == 0xA0
    ||| u == 0x1680
    ||| 0x2000 <= u <= 0x200A
    ||| u == 0x2028
    ||| u == 0x2029
    ||| u == 0x202F
    ||| u == 0x205F
    ||| u == 0x3000
}

/// Whether `c` is Unicode whitespace.
pub fn is_whitespace(c: char) -> (r: bool)
    ensures
        r == is_ws(c),
{
    let u = c as u32;
    (0x09 <= u && u <= 0x0D) || u == 0x20 || u == 0x85 || u == 0xA0 || u == 0x1680 || (0x2000
        <= u && u <= 0x200A) || u == 0x2028 || u == 0x2029 || u == 0x202F || u == 0x205F || u
        == 0x3000
}

/// The characters a trim removes: whitespace, or (for `quotes`) the `"` character.
pub open spec fn trimmed_char(quotes: bool, c: char) -> bool {
    if quotes {
        c == '"'
    } else {
        is_ws(c)
    }
}

/// End of the run of trimmed characters that starts at `i`.
pub open spec fn lead_end(s: Seq<char>, i: int, quotes: bool) -> int
    decreases s.len() - i,
{
    if 0 <= i < s.len() && trimmed_char(quotes, s[i]) {
        lead_end(s, i + 1, quotes)
    } else {
        i
    }
}

/// Start of the run of trimmed characters that ends at `j`.
pub open spec fn trail_start(s: Seq<char>, j: int, quotes: bool) -> int
    decreases j,
{
    if 0 < j <= s.len() && trimmed_char(quotes, s[j - 1]) {
        trail_start(s, j - 1, quotes)
    } else {
        j
    }
}

/// `s` without its leading and trailing trimmed characters.
pub open spec fn trim_by(s: Seq<char>, quotes: bool) -> Seq<char> {
    let t = s.skip(lead_end(s, 0, quotes));
    t.take(trail_start(t, t.len() as int, quotes))
}

/// `str::trim`: `s` without leading and trailing whitespace.
pub open spec fn trim(s: Seq<char>) -> Seq<char> {
    trim_by(s, false)
}

/// `str::trim_matches('"')`: `s` without leading and trailing `"` characters.
pub open spec fn trim_quotes(s: Seq<char>) -> Seq<char> {
    trim_by(s, true)
}

/// Index of the first `c` in `s` at or after `i`.
pub open spec fn find_from(s: Seq<char>, c: char, i: int) -> Option<int>
    decreases s.len() - i,
{
    if i < 0 || i >= s.len() {
        None
    } else if s[i] == c {
        Some(i)
    } else {
        find_from(s, c, i + 1)
    }
}

/// Index of the first `c` in `s`.
pub open spec fn find_char(s: Seq<char>, c: char) -> Option<int> {
    find_from(s, c, 0)
}

/// `str::split_once(c)`: the parts before and after the first `c`.
pub open spec fn split_once(s: Seq<char>, c: char) -> Option<(Seq<char>, Seq<char>)> {
    match find_char(s, c) {
        Some(i) => Some((s.take(i), s.skip(i + 1))),
        None => None,
    }
}

/// The `'\n'`-separated segments of `s`; the last one may be empty.
pub open spec fn split_lines(s: Seq<char>) -> Seq<Seq<char>>
    decreases s.len(),
{
    if s.len() == 0 {
        seq![Seq::<char>::empty()]
    } else {
        let prev = split_lines(s.drop_last());
        if s.last() == '\n' {
            prev.push(Seq::<char>::empty())
        } else {
            prev.update(prev.len() - 1, prev.last().push(s.last()))
        }
    }
}

proof fn lemma_split_lines_nonempty(s: Seq<char>)
    ensures
        split_lines(s).len() >= 1,
    decreases s.len(),
{
    if s.len() > 0 {
        lemma_split_lines_nonempty(s.drop_last());
    }
}

/// Calls `String::push` of std: appends one character.
#[verifier::external_body]
pub(crate) fn push_char(s: &mut String, c: char)
    ensures
        final(s)@ == old(s)@.push(c),
{
    s.push(c);
}

/// The characters of `s`, in order.
pub fn chars_of(s: &str) -> (v: Vec<char>)
    ensures
        v@ == s@,
{
    let mut v: Vec<char> = Vec::new();
    for c in it: s.chars()
        invariant
            v@ == it.seq().take(it.index() as int),
    {
        v.push(c);
    }
    v
}

/// The string made of `v[lo..hi]`.
pub fn string_of(v: &Vec<char>, lo: usize, hi: usize) -> (s: String)
    requires
        lo <= hi <= v.len(),
    ensures
        s@ == v@.subrange(lo as int, hi as int),
{
    let mut s = String::new();
    let mut i = lo;
    while i < hi
        invariant
            lo <= i <= hi <= v.len(),
            s@ == v@.subrange(lo as int, i as int),
        decreases hi - i,
    {
        push_char(&mut s, v[i]);
        i = i + 1;
        assert(s@ =~= v@.subrange(lo as int, i as int));
    }
    s
}

/// The string made of the characters of `v`.
pub fn string_of_all(v: &Vec<char>) -> (s: String)
    ensures
        s@ == v@,
{
    let s = string_of(v, 0, v.len());
    assert(v@.subrange(0, v@.len() as int) =~= v@);
    s
}

/// Whether a trim removes `c`.
fn is_trimmed(quotes: bool, c: char) -> (r: bool)
    ensures
        r == trimmed_char(quotes, c),
{
    if quotes {
        c == '"'
    } else {
        is_whitespace(c)
    }
}

/// Bounds of `trim_by(v[lo..hi], quotes)` inside `v`.
pub fn trim_range(v: &Vec<char>, lo: usize, hi: usize, quotes: bool) -> (r: (usize, usize))
    requires
        lo <= hi <= v.len(),
    ensures
        lo <= r.0 <= r.1 <= hi,
        v@.subrange(r.0 as int, r.1 as int) == trim_by(v@.subrange(lo as int, hi as int), quotes),
{
    let ghost s = v@.subrange(lo as int, hi as int);
    let mut a = lo;
    while a < hi && is_trimmed(quotes, v[a])
        invariant
            lo <= a <= hi <= v.len(),
            s == v@.subrange(lo as int, hi as int),
            lead_end(s, 0, quotes) == lead_end(s, a - lo, quotes),
        decreases hi - a,
    {
        assert(s[a - lo] == v@[a as int]);
        a = a + 1;
    }
    assert(lead_end(s, a - lo, quotes) == a - lo) by {
        if a < hi {
            assert(s[a - lo] == v@[a as int]);
        }
    }
    let ghost t = s.skip(a - lo);
    assert(t =~= v@.subrange(a as int, hi as int));
    let mut b = hi;
    while b > a && is_trimmed(quotes, v[b - 1])
        invariant
            lo <= a <= b <= hi <= v.len(),
            t == v@.subrange(a as int, hi as int),
            trail_start(t, t.len() as int, quotes) == trail_start(t, b - a, quotes),
        decreases b - a,
    {
        assert(t[b - a - 1] == v@[b - 1]);
        b = b - 1;
    }
    assert(trail_start(t, b - a, quotes) == b - a) by {
        if b > a {
            assert(t[b - a - 1] == v@[b - 1]);
        }
    }
    assert(t.take(b - a) =~= v@.subrange(a as int, b as int));
    (a, b)
}

/// Index of the first `c` in `v[lo..hi]`, counted from `lo`.
pub fn find_in(v: &Vec<char>, lo: usize, hi: usize, c: char) -> (r: Option<usize>)
    requires
        lo <= hi <= v.len(),
    ensures
        match r {
            Some(k) => find_char(v@.subrange(lo as int, hi as int), c) == Some(k as int)
                && lo + k < hi,
            None => find_char(v@.subrange(lo as int, hi as int), c) is None,
        },
{
    let ghost s = v@.subrange(lo as int, hi as int);
    let mut i = lo;
    while i < hi
        invariant
            lo <= i <= hi <= v.len(),
            s == v@.subrange(lo as int, hi as int),
            find_char(s, c) == find_from(s, c, i - lo),
        decreases hi - i,
    {
        assert(s[i - lo] == v@[i as int]);
        if v[i] == c {
            return Some(i - lo);
        }
        i = i + 1;
    }
    None
}

/// Whether `v[lo..hi]` is the text `lit`.
pub fn range_is(v: &Vec<char>, lo: usize, hi: usize, lit: &str) -> (r: bool)
    requires
        lo <= hi <= v.len(),
    ensures
        r == (v@.subrange(lo as int, hi as int) == lit@),
{
    let w = chars_of(lit);
    if hi - lo != w.len() {
        assert(v@.subrange(lo as int, hi as int).len() != lit@.len());
        return false;
    }
    let mut i: usize = 0;
    while i < w.len()
        invariant
            lo <= hi <= v.len(),
            hi - lo == w.len(),
            w@ == lit@,
            i <= w.len(),
            forall|k: int| 0 <= k < i ==> v@[lo + k] == w@[k],
        decreases w.len() - i,
    {
        if v[lo + i] != w[i] {
            assert(v@.subrange(lo as int, hi as int)[i as int] != lit@[i as int]);
            return false;
        }
        i = i + 1;
    }
    assert(v@.subrange(lo as int, hi as int) =~= lit@);
    true
}

/// Bounds of the `'\n'`-separated segments of `v`, in order.
pub fn line_ranges(v: &Vec<char>) -> (r: Vec<(usize, usize)>)
    ensures
        r.len() == split_lines(v@).len(),
        r.len() >= 1,
        forall|k: int|
            0 <= k < r.len() ==> {
                &&& (#[trigger] r[k]).0 <= r[k].1 <= v.len()
                &&& v@.subrange(r[k].0 as int, r[k].1 as int) == split_lines(v@)[k]
            },
{
    let mut r: Vec<(usize, usize)> = Vec::new();
    let mut start: usize = 0;
    let mut i: usize = 0;
    while i < v.len()
        invariant
            start <= i <= v.len(),
            r.len() + 1 == split_lines(v@.take(i as int)).len(),
            forall|k: int|
                0 <= k < r.len() ==> {
                    &&& (#[trigger] r[k]).0 <= r[k].1 <= v.len()
                    &&& v@.subrange(r[k].0 as int, r[k].1 as int) == split_lines(
                        v@.take(i as int),
                    )[k]
                },
            v@.subrange(start as int, i as int) == split_lines(v@.take(i as int)).last(),
        decreases v.len() - i,
    {
        let ghost prev = split_lines(v@.take(i as int));
        assert(v@.take(i + 1).drop_last() =~= v@.take(i as int));
        assert(v@.take(i + 1).last() == v@[i as int]);
        if v[i] == '\n' {
            r.push((start, i));
            start = i + 1;
            i = i + 1;
            assert(v@.subrange(start as int, i as int) =~= Seq::<char>::empty());
        } else {
            i = i + 1;
            assert(v@.subrange(start as int, i as int) =~= v@.subrange(
                start as int,
                i - 1,
            ).push(v@[i - 1]));
        }
    }
    r.push((start, i));
    assert(v@.take(i as int) =~= v@);
    proof {
        lemma_split_lines_nonempty(v@);
    }
    r
}


/// `str::replace`: every non-overlapping occurrence of `pat` in `s`, scanning from the
/// left, replaced by `rep` (for a non-empty `pat`; an empty one leaves `s` as it is).
pub open spec fn replace_all(s: Seq<char>, pat: Seq<char>, rep: Seq<char>) -> Seq<char>
    decreases s.len(),
{
    if pat.len() == 0 || s.len() < pat.len() {
        s
    } else if s.take(pat.len() as int) == pat {
        rep + replace_all(s.skip(pat.len() as int), pat, rep)
    } else {
        seq![s[0]] + replace_all(s.drop_first(), pat, rep)
    }
}

/// Whether `pat` occurs in `s` at position `i`.
fn occurs_at(s: &Vec<char>, i: usize, pat: &Vec<char>) -> (r: bool)
    requires
        i + pat.len() <= s.len(),
    ensures
        r == (s@.subrange(i as int, i + pat.len()) == pat@),
{
    let mut k: usize = 0;
    while k < pat.len()
        invariant
            i + pat.len() <= s.len(),
            k <= pat.len(),
            forall|j: int| 0 <= j < k ==> s@[i + j] == pat@[j],
        decreases pat.len() - k,
    {
        if s[i + k] != pat[k] {
            assert(s@.subrange(i as int, i + pat.len())[k as int] != pat@[k as int]);
            return false;
        }
        k = k + 1;
    }
    assert(s@.subrange(i as int, i + pat.len()) =~= pat@);
    true
}

/// `s` with every occurrence of the non-empty `pat` replaced by `rep` (see `replace_all`).
pub fn replace_chars(s: &Vec<char>, pat: &Vec<char>, rep: &Vec<char>) -> (r: Vec<char>)
    requires
        pat.len() > 0,
    ensures
        r@ == replace_all(s@, pat@, rep@),
{
    let mut out: Vec<char> = Vec::new();
    let mut i: usize = 0;
    assert(s@.skip(0) =~= s@);
    while i < s.len()
        invariant
            pat.len() > 0,
            i <= s.len(),
            replace_all(s@, pat@, rep@) == out@ + replace_all(s@.skip(i as int), pat@, rep@),
        decreases s.len() - i,
    {
        let ghost rest = s@.skip(i as int);
        if pat.len() <= s.len() - i && occurs_at(s, i, pat) {
            assert(rest.take(pat.len() as int) =~= s@.subrange(i as int, i + pat.len()));
            assert(rest.skip(pat.len() as int) =~= s@.skip(i + pat.len()));
            let mut k: usize = 0;
            let ghost before = out@;
            while k < rep.len()
                invariant
                    k <= rep.len(),
                    out@ == before + rep@.take(k as int),
                decreases rep.len() - k,
            {
                out.push(rep[k]);
                k = k + 1;
                assert(out@ =~= before + rep@.take(k as int));
            }
            assert(rep@.take(rep.len() as int) =~= rep@);
            assert(before + (rep@ + replace_all(rest.skip(pat.len() as int), pat@, rep@)) =~= (
            before + rep@) + replace_all(rest.skip(pat.len() as int), pat@, rep@));
            i = i + pat.len();
        } else {
            assert(rest.drop_first() =~= s@.skip(i + 1));
            proof {
                if rest.len() >= pat.len() {
                    assert(rest.take(pat.len() as int) =~= s@.subrange(i as int, i + pat.len()));
                } else {
                    assert(replace_all(rest, pat@, rep@) == rest);
                    assert(replace_all(rest.drop_first(), pat@, rep@) == rest.drop_first());
                }
            }
            assert(rest =~= seq![s@[i as int]] + rest.drop_first());
            let ghost before = out@;
            out.push(s[i]);
            assert(before + (seq![s@[i as int]] + replace_all(rest.drop_first(), pat@, rep@))
                =~= before.push(s@[i as int]) + replace_all(rest.drop_first(), pat@, rep@));
            i = i + 1;
        }
    }
    assert(s@.skip(i as int) =~= Seq::<char>::empty());
    assert(out@ + Seq::<char>::empty() =~= out@);
    out
}


/// `find_from` finds the first `c` at or after `i`.
pub proof fn find_from_is_first(s: Seq<char>, c: char, i: int)
    requires
        0 <= i,
    ensures
        match find_from(s, c, i) {
            Some(k) => i <= k < s.len() && s[k] == c && forall|j: int| i <= j < k ==> s[j] != c,
            None => forall|j: int| i <= j < s.len() ==> s[j] != c,
        },
    decreases s.len() - i,
{
    if i < s.len() && s[i] != c {
        find_from_is_first(s, c, i + 1);
    }
}

proof fn lemma_lead_end_range(s: Seq<char>, i: int, quotes: bool)
    requires
        0 <= i <= s.len(),
    ensures
        i <= lead_end(s, i, quotes) <= s.len(),
    decreases s.len() - i,
{
    if i < s.len() && trimmed_char(quotes, s[i]) {
        lemma_lead_end_range(s, i + 1, quotes);
    }
}

proof fn lemma_trail_start_range(s: Seq<char>, j: int, quotes: bool)
    requires
        0 <= j <= s.len(),
    ensures
        0 <= trail_start(s, j, quotes) <= j,
    decreases j,
{
    if 0 < j && trimmed_char(quotes, s[j - 1]) {
        lemma_trail_start_range(s, j - 1, quotes);
    }
}

/// A trim is a contiguous part of the text: every character of it is a character of
/// the text.
pub proof fn trim_is_part_of(s: Seq<char>, quotes: bool)
    ensures
        exists|a: int, b: int| 0 <= a <= b <= s.len() && trim_by(s, quotes) == s.subrange(a, b),
{
    lemma_lead_end_range(s, 0, quotes);
    let a = lead_end(s, 0, quotes);
    let t = s.skip(a);
    lemma_trail_start_range(t, t.len() as int, quotes);
    let b = trail_start(t, t.len() as int, quotes);
    assert(trim_by(s, quotes) =~= s.subrange(a, a + b));
}

} // verus!
