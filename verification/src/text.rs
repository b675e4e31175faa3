//! Character-level building blocks: whitespace, trimming, substring search,
//! splitting and line breaking, all over `Seq<char>`, with executable
//! counterparts that work on index ranges of a `Vec<char>`.
use vstd::prelude::*;
use vstd::std_specs::iter::IteratorSpec;

verus! {

/// The characters for which `char::is_whitespace` holds: those with the
/// Unicode `White_Space` property.
pub open spec fn is_ws(c: char) -> bool {
    let u = c as u32;
    ||| 0x09 <= u <= 0x0d
    ||| u == 0x20
    ||| u == 0x85
    ||| u == 0xa0
    ||| u == 0x1680
    ||| 0x2000 <= u <= 0x200a
    ||| u == 0x2028
    ||| u == 0x2029
    ||| u == 0x202f
    ||| u == 0x205f
    ||| u == 0x3000
}

/// `s` without its leading whitespace.
pub open spec fn trim_start(s: Seq<char>) -> Seq<char>
    decreases s.len(),
{
    if s.len() > 0 && is_ws(s[0]) {
        trim_start(s.drop_first())
    } else {
        s
    }
}

/// `s` without its trailing whitespace.
pub open spec fn trim_end(s: Seq<char>) -> Seq<char>
    decreases s.len(),
{
    if s.len() > 0 && is_ws(s.last()) {
        trim_end(s.drop_last())
    } else {
        s
    }
}

/// `s` without leading and trailing whitespace (`str::trim`).
pub open spec fn trim(s: Seq<char>) -> Seq<char> {
    trim_end(trim_start(s))
}

/// Every character of `s` is whitespace.
pub open spec fn all_ws(s: Seq<char>) -> bool {
    forall|i: int| 0 <= i < s.len() ==> is_ws(#[trigger] s[i])
}

/// Whether `c` is whitespace (`char::is_whitespace`).
pub fn is_whitespace(c: char) -> (r: bool)
    ensures
        r == is_ws(c),
{
    let u = c as u32;
    (0x09 <= u && u <= 0x0d) || u == 0x20 || u == 0x85 || u == 0xa0 || u == 0x1680 || (0x2000 <= u
        && u <= 0x200a) || u == 0x2028 || u == 0x2029 || u == 0x202f || u == 0x205f || u == 0x3000
}

pub proof fn lemma_trim_start_at(s: Seq<char>, k: int)
    requires
        0 <= k <= s.len(),
        forall|j: int| 0 <= j < k ==> is_ws(#[trigger] s[j]),
        k == s.len() || !is_ws(s[k]),
    ensures
        trim_start(s) == s.skip(k),
    decreases k,
{
    if k == 0 {
        assert(s.skip(0) =~= s);
    } else {
        assert(is_ws(s[0]));
        let t = s.drop_first();
        assert forall|j: int| 0 <= j < k - 1 implies is_ws(#[trigger] t[j]) by {
            assert(t[j] == s[j + 1]);
        }
        lemma_trim_start_at(t, k - 1);
        assert(t.skip(k - 1) =~= s.skip(k));
    }
}

pub proof fn lemma_trim_end_at(s: Seq<char>, m: int)
    requires
        0 <= m <= s.len(),
        forall|j: int| m <= j < s.len() ==> is_ws(#[trigger] s[j]),
        m == 0 || !is_ws(s[m - 1]),
    ensures
        trim_end(s) == s.take(m),
    decreases s.len() - m,
{
    if m == s.len() {
        assert(s.take(m) =~= s);
    } else {
        assert(is_ws(s.last()));
        let t = s.drop_last();
        assert forall|j: int| m <= j < t.len() implies is_ws(#[trigger] t[j]) by {
            assert(t[j] == s[j]);
        }
        lemma_trim_end_at(t, m);
        assert(t.take(m) =~= s.take(m));
    }
}

/// The bounds of the trimmed part of `s[lo..hi]`.
pub fn trim_bounds(s: &Vec<char>, lo: usize, hi: usize) -> (r: (usize, usize))
    requires
        lo <= hi <= s.len(),
    ensures
        lo <= r.0 <= r.1 <= hi,
        s@.subrange(r.0 as int, r.1 as int) == trim(s@.subrange(lo as int, hi as int)),
{
    let mut a = lo;
    while a < hi && is_whitespace(s[a])
        invariant
            lo <= a <= hi <= s.len(),
            forall|j: int| lo <= j < a ==> is_ws(#[trigger] s@[j]),
        decreases hi - a,
    {
        a = a + 1;
    }
    let mut b = hi;
    while b > a && is_whitespace(s[b - 1])
        invariant
            lo <= a <= b <= hi <= s.len(),
            forall|j: int| b <= j < hi ==> is_ws(#[trigger] s@[j]),
        decreases b - a,
    {
        b = b - 1;
    }
    proof {
        let t = s@.subrange(lo as int, hi as int);
        assert forall|j: int| 0 <= j < a - lo implies is_ws(#[trigger] t[j]) by {
            assert(t[j] == s@[lo + j]);
        }
        lemma_trim_start_at(t, a - lo);
        let u = t.skip(a - lo);
        assert(u =~= s@.subrange(a as int, hi as int));
        assert forall|j: int| b - a <= j < u.len() implies is_ws(#[trigger] u[j]) by {
            assert(u[j] == s@[a + j]);
        }
        lemma_trim_end_at(u, b - a);
        assert(u.take(b - a) =~= s@.subrange(a as int, b as int));
    }
    (a, b)
}

/// Copies the characters of `s` into a vector.
pub fn chars_of(s: &str) -> (v: Vec<char>)
    ensures
        v@ == s@,
{
    broadcast use vstd::string::group_string_axioms;

    let mut v: Vec<char> = Vec::new();
    for c in it: s.chars()
        invariant
            v@ == it.seq().take(it.index() as int),
            it.seq() == s@,
    {
        v.push(c);
    }
    v
}


/// `pat` occurs in `s` at position `i`.
pub open spec fn match_at(s: Seq<char>, i: int, pat: Seq<char>) -> bool {
    0 <= i && i + pat.len() <= s.len() && s.subrange(i, i + pat.len()) == pat
}

/// The position of the first occurrence of `pat` in `s`.
pub open spec fn find(s: Seq<char>, pat: Seq<char>) -> Option<int>
    decreases s.len(),
{
    if s.len() == 0 || s.len() < pat.len() {
        None
    } else if s.take(pat.len() as int) == pat {
        Some(0)
    } else {
        match find(s.drop_first(), pat) {
            Some(i) => Some(i + 1),
            None => None,
        }
    }
}

/// `find` gives the first position at which `pat` occurs, or `None` when it
/// occurs nowhere.
pub proof fn lemma_find(s: Seq<char>, pat: Seq<char>)
    requires
        pat.len() > 0,
    ensures
        match find(s, pat) {
            Some(i) => match_at(s, i, pat) && forall|j: int|
                0 <= j < i ==> !#[trigger] match_at(s, j, pat),
            None => forall|j: int| !#[trigger] match_at(s, j, pat),
        },
    decreases s.len(),
{
    if s.len() == 0 || s.len() < pat.len() {
    } else if s.take(pat.len() as int) == pat {
        assert(s.subrange(0, pat.len() as int) =~= s.take(pat.len() as int));
    } else {
        let t = s.drop_first();
        lemma_find(t, pat);
        assert(!match_at(s, 0, pat)) by {
            assert(s.subrange(0, pat.len() as int) =~= s.take(pat.len() as int));
        }
        assert forall|j: int| j >= 1 implies #[trigger] match_at(s, j, pat) == match_at(
            t,
            j - 1,
            pat,
        ) by {
            if j + pat.len() <= s.len() {
                assert(s.subrange(j, j + pat.len()) =~= t.subrange(j - 1, j - 1 + pat.len()));
            }
        }
    }
}

/// The first occurrence of `pat` is at `k` when it occurs at `k` and nowhere before.
pub proof fn lemma_find_is(s: Seq<char>, pat: Seq<char>, k: int)
    requires
        pat.len() > 0,
        match_at(s, k, pat),
        forall|j: int| 0 <= j < k ==> !#[trigger] match_at(s, j, pat),
    ensures
        find(s, pat) == Some(k),
{
    lemma_find(s, pat);
}

/// The pieces of `s` between the occurrences of `pat` (`str::split` with a
/// string pattern).
pub open spec fn split(s: Seq<char>, pat: Seq<char>) -> Seq<Seq<char>>
    decreases s.len(),
{
    if pat.len() == 0 {
        seq![s]
    } else {
        match find(s, pat) {
            None => seq![s],
            Some(i) => {
                proof {
                    lemma_find(s, pat);
                }
                seq![s.take(i)] + split(s.skip(i + pat.len()), pat)
            },
        }
    }
}

/// `s` without one trailing carriage return.
pub open spec fn strip_cr(s: Seq<char>) -> Seq<char> {
    if s.len() > 0 && s.last() == '\r' {
        s.drop_last()
    } else {
        s
    }
}

/// The lines of `s` (`str::lines`): split at `\n`, a `\r` before the `\n`
/// removed, and no empty line after a final `\n`.
pub open spec fn lines(s: Seq<char>) -> Seq<Seq<char>>
    decreases s.len(),
{
    if s.len() == 0 {
        seq![]
    } else {
        match find(s, seq!['\n']) {
            None => seq![s],
            Some(i) => {
                proof {
                    lemma_find(s, seq!['\n']);
                }
                seq![strip_cr(s.take(i))] + lines(s.skip(i + 1))
            },
        }
    }
}

/// The pieces of `s` that the index ranges `rs` select.
pub open spec fn pieces(s: Seq<char>, rs: Seq<(usize, usize)>) -> Seq<Seq<char>> {
    rs.map_values(|r: (usize, usize)| s.subrange(r.0 as int, r.1 as int))
}

/// All ranges lie inside `s`.
pub open spec fn ranges_within(len: nat, rs: Seq<(usize, usize)>) -> bool {
    forall|k: int| #![trigger rs[k]] 0 <= k < rs.len() ==> rs[k].0 <= rs[k].1 <= len
}

pub proof fn lemma_range_at(len: nat, rs: Seq<(usize, usize)>, k: int)
    requires
        ranges_within(len, rs),
        0 <= k < rs.len(),
    ensures
        rs[k].0 <= rs[k].1 <= len,
{
}

/// Whether `pat` occurs in `s` at position `p`.
pub fn matches_at(s: &Vec<char>, p: usize, pat: &Vec<char>) -> (r: bool)
    requires
        p + pat.len() <= s.len(),
    ensures
        r == (s@.subrange(p as int, p + pat.len()) == pat@),
{
    let mut k: usize = 0;
    while k < pat.len()
        invariant
            p + pat.len() <= s.len(),
            k <= pat.len(),
            forall|j: int| 0 <= j < k ==> s@[p + j] == pat@[j],
        decreases pat.len() - k,
    {
        if s[p + k] != pat[k] {
            assert(s@.subrange(p as int, p + pat.len())[k as int] != pat@[k as int]);
            return false;
        }
        k = k + 1;
    }
    assert(s@.subrange(p as int, p + pat.len()) =~= pat@);
    true
}

/// The first occurrence of `pat` in `s[lo..hi]`, as a position in `s`.
pub fn find_in(s: &Vec<char>, lo: usize, hi: usize, pat: &Vec<char>) -> (r: Option<usize>)
    requires
        lo <= hi <= s.len(),
        pat.len() > 0,
    ensures
        match r {
            Some(k) => lo <= k && k + pat.len() <= hi && find(
                s@.subrange(lo as int, hi as int),
                pat@,
            ) == Some(k - lo),
            None => find(s@.subrange(lo as int, hi as int), pat@) == None::<int>,
        },
{
    let ghost t = s@.subrange(lo as int, hi as int);
    let mut p = lo;
    while p <= hi && hi - p >= pat.len()
        invariant
            lo <= p <= hi + 1,
            hi <= s.len(),
            pat.len() > 0,
            t == s@.subrange(lo as int, hi as int),
            forall|j: int| 0 <= j < p - lo ==> !#[trigger] match_at(t, j, pat@),
        decreases hi + 1 - p,
    {
        if matches_at(s, p, pat) {
            proof {
                assert(t.subrange(p - lo, p - lo + pat.len()) =~= s@.subrange(
                    p as int,
                    p + pat.len(),
                ));
                lemma_find_is(t, pat@, p - lo);
            }
            return Some(p);
        }
        proof {
            assert(t.subrange(p - lo, p - lo + pat.len()) =~= s@.subrange(
                p as int,
                p + pat.len(),
            ));
        }
        p = p + 1;
    }
    proof {
        lemma_find(t, pat@);
        assert forall|j: int| !#[trigger] match_at(t, j, pat@) by {
            if 0 <= j < p - lo {
            }
        }
    }
    None
}

/// The ranges of the pieces of `s[lo..hi]` between occurrences of `pat`.
pub fn split_ranges(s: &Vec<char>, lo: usize, hi: usize, pat: &Vec<char>) -> (rs: Vec<(usize, usize)>)
    requires
        lo <= hi <= s.len(),
        pat.len() > 0,
    ensures
        ranges_within(s.len() as nat, rs@),
        pieces(s@, rs@) == split(s@.subrange(lo as int, hi as int), pat@),
{
    let mut rs: Vec<(usize, usize)> = Vec::new();
    let mut pos = lo;
    loop
        invariant
            lo <= pos <= hi <= s.len(),
            pat.len() > 0,
            ranges_within(s.len() as nat, rs@),
            pieces(s@, rs@) + split(s@.subrange(pos as int, hi as int), pat@) == split(
                s@.subrange(lo as int, hi as int),
                pat@,
            ),
        decreases hi - pos,
    {
        let ghost t = s@.subrange(pos as int, hi as int);
        let ghost old_rs = rs@;
        match find_in(s, pos, hi, pat) {
            Some(k) => {
                rs.push((pos, k));
                proof {
                    assert forall|j: int| 0 <= j < rs@.len() implies #[trigger] rs@[j].0 <= rs@[j].1
                        <= s.len() by {
                        if j < old_rs.len() {
                            assert(rs@[j] == old_rs[j]);
                        }
                    }
                    assert(t.take(k - pos) =~= s@.subrange(pos as int, k as int));
                    assert(t.skip(k - pos + pat.len()) =~= s@.subrange(k + pat.len(), hi as int));
                    assert(split(t, pat@) == seq![t.take(k - pos)] + split(
                        t.skip(k - pos + pat.len()),
                        pat@,
                    ));
                    assert(pieces(s@, rs@) =~= pieces(s@, old_rs).push(
                        s@.subrange(pos as int, k as int),
                    ));
                    assert(pieces(s@, rs@) + split(s@.subrange(k + pat.len(), hi as int), pat@)
                        =~= pieces(s@, old_rs) + split(t, pat@));
                }
                pos = k + pat.len();
            },
            None => {
                rs.push((pos, hi));
                proof {
                    assert(split(t, pat@) == seq![t]);
                    assert(pieces(s@, rs@) =~= pieces(s@, old_rs) + split(t, pat@));
                }
                return rs;
            },
        }
    }
}


/// A vector holding the single character `c`.
pub fn single(c: char) -> (v: Vec<char>)
    ensures
        v@ == seq![c],
{
    let mut v: Vec<char> = Vec::new();
    v.push(c);
    assert(v@ =~= seq![c]);
    v
}

/// The next line of `s` from `pos` on: its range and where the following one starts.
pub fn next_line(s: &Vec<char>, pos: usize) -> (r: (usize, usize, usize))
    requires
        pos < s.len(),
    ensures
        pos == r.0 <= r.1 <= r.2 <= s.len(),
        pos < r.2,
        lines(s@.skip(pos as int)) == seq![s@.subrange(r.0 as int, r.1 as int)] + lines(
            s@.skip(r.2 as int),
        ),
{
    let nl = single('\n');
    let ghost t = s@.skip(pos as int);
    assert(t =~= s@.subrange(pos as int, s.len() as int));
    match find_in(s, pos, s.len(), &nl) {
        Some(k) => {
            let mut end = k;
            if end > pos && s[end - 1] == '\r' {
                end = end - 1;
            }
            proof {
                assert(t.take(k - pos) =~= s@.subrange(pos as int, k as int));
                assert(t.skip(k - pos + 1) =~= s@.skip(k + 1));
                if end < k {
                    assert(s@.subrange(pos as int, k as int).drop_last() =~= s@.subrange(
                        pos as int,
                        end as int,
                    ));
                }
            }
            (pos, end, k + 1)
        },
        None => {
            proof {
                assert(t =~= s@.subrange(pos as int, s.len() as int));
                assert(s@.skip(s.len() as int) =~= Seq::<char>::empty());
            }
            (pos, s.len(), s.len())
        },
    }
}

/// A copy of `s[a..b]`.
pub fn copy_range(s: &Vec<char>, a: usize, b: usize) -> (v: Vec<char>)
    requires
        a <= b <= s.len(),
    ensures
        v@ == s@.subrange(a as int, b as int),
{
    let mut v: Vec<char> = Vec::new();
    let mut i = a;
    while i < b
        invariant
            a <= i <= b <= s.len(),
            v@ == s@.subrange(a as int, i as int),
        decreases b - i,
    {
        v.push(s[i]);
        i = i + 1;
        assert(v@ =~= s@.subrange(a as int, i as int));
    }
    v
}

/// Appends `c` to `s` (`String::push`).
#[verifier::external_body]
fn push_char(s: &mut String, c: char)
    ensures
        final(s)@ == old(s)@.push(c),
{
    s.push(c);
}

/// A `String` holding the characters `v`.
pub fn string_of(v: &Vec<char>) -> (r: String)
    ensures
        r@ == v@,
{
    let mut r = String::new();
    let mut i: usize = 0;
    while i < v.len()
        invariant
            i <= v.len(),
            r@ == v@.take(i as int),
        decreases v.len() - i,
    {
        push_char(&mut r, v[i]);
        i = i + 1;
        assert(r@ =~= v@.take(i as int));
    }
    assert(v@.take(v.len() as int) =~= v@);
    r
}

/// Appends the characters of `v` to `out`.
pub fn append_chars(out: &mut Vec<char>, v: &Vec<char>)
    ensures
        final(out)@ == old(out)@ + v@,
{
    let mut i: usize = 0;
    while i < v.len()
        invariant
            i <= v.len(),
            out@ == old(out)@ + v@.take(i as int),
        decreases v.len() - i,
    {
        out.push(v[i]);
        i = i + 1;
        assert(out@ =~= old(out)@ + v@.take(i as int));
    }
    assert(v@.take(v.len() as int) =~= v@);
}

/// The decimal digit for `d < 10`.
pub open spec fn digit_char(d: nat) -> char {
    if d == 0 { '0' }
    else if d == 1 { '1' }
    else if d == 2 { '2' }
    else if d == 3 { '3' }
    else if d == 4 { '4' }
    else if d == 5 { '5' }
    else if d == 6 { '6' }
    else if d == 7 { '7' }
    else if d == 8 { '8' }
    else { '9' }
}

/// The decimal notation of `n`, as `Display` writes an unsigned integer.
pub open spec fn decimal(n: nat) -> Seq<char>
    decreases n,
{
    if n < 10 {
        seq![digit_char(n)]
    } else {
        decimal(n / 10).push(digit_char(n % 10))
    }
}

fn digit(d: usize) -> (c: char)
    requires
        d < 10,
    ensures
        c == digit_char(d as nat),
{
    if d == 0 { '0' }
    else if d == 1 { '1' }
    else if d == 2 { '2' }
    else if d == 3 { '3' }
    else if d == 4 { '4' }
    else if d == 5 { '5' }
    else if d == 6 { '6' }
    else if d == 7 { '7' }
    else if d == 8 { '8' }
    else { '9' }
}

/// Appends the decimal notation of `n` to `out`.
pub fn push_decimal(out: &mut Vec<char>, n: usize)
    ensures
        final(out)@ == old(out)@ + decimal(n as nat),
    decreases n,
{
    if n >= 10 {
        push_decimal(out, n / 10);
    }
    out.push(digit(n % 10));
    assert(out@ =~= old(out)@ + decimal(n as nat)) by {
        if n >= 10 {
            assert(decimal(n as nat) == decimal((n / 10) as nat).push(digit_char((n % 10) as nat)));
        }
    }
}


/// The position of the first character of `s` that satisfies `p`, or the
/// length of `s` when there is none.
pub open spec fn first_where(s: Seq<char>, p: spec_fn(char) -> bool) -> int
    decreases s.len(),
{
    if s.len() == 0 {
        0
    } else if p(s[0]) {
        0
    } else {
        1 + first_where(s.drop_first(), p)
    }
}

pub proof fn lemma_first_where(s: Seq<char>, p: spec_fn(char) -> bool)
    ensures
        0 <= first_where(s, p) <= s.len(),
        forall|j: int| 0 <= j < first_where(s, p) ==> !p(#[trigger] s[j]),
        first_where(s, p) < s.len() ==> p(s[first_where(s, p)]),
    decreases s.len(),
{
    if s.len() > 0 && !p(s[0]) {
        let t = s.drop_first();
        lemma_first_where(t, p);
        assert forall|j: int| 0 <= j < first_where(s, p) implies !p(#[trigger] s[j]) by {
            if j > 0 {
                assert(s[j] == t[j - 1]);
            }
        }
    }
}

/// `first_where` is `k` when `s[k]` is the first character that satisfies `p`.
pub proof fn lemma_first_where_is(s: Seq<char>, p: spec_fn(char) -> bool, k: int)
    requires
        0 <= k <= s.len(),
        forall|j: int| 0 <= j < k ==> !p(#[trigger] s[j]),
        k < s.len() ==> p(s[k]),
    ensures
        first_where(s, p) == k,
{
    lemma_first_where(s, p);
    let f = first_where(s, p);
    if f < k {
        assert(!p(s[f]));
    }
    if k < f {
        assert(!p(s[k]));
    }
}


/// The pieces `ps` with `sep` between each two of them.
pub open spec fn join(ps: Seq<Seq<char>>, sep: Seq<char>) -> Seq<char>
    decreases ps.len(),
{
    if ps.len() == 0 {
        seq![]
    } else if ps.len() == 1 {
        ps[0]
    } else {
        ps[0] + sep + join(ps.drop_first(), sep)
    }
}

/// The pieces `ps` one after the other.
pub open spec fn flatten(ps: Seq<Seq<char>>) -> Seq<char>
    decreases ps.len(),
{
    if ps.len() == 0 {
        seq![]
    } else {
        ps[0] + flatten(ps.drop_first())
    }
}

/// The number of characters the pieces `ps` take when each is followed by
/// one more character.
pub open spec fn width(ps: Seq<Seq<char>>) -> nat
    decreases ps.len(),
{
    if ps.len() == 0 {
        0
    } else {
        width(ps.drop_last()) + ps.last().len() + 1
    }
}

pub proof fn lemma_split_nonempty(s: Seq<char>, pat: Seq<char>)
    ensures
        split(s, pat).len() >= 1,
{
    if pat.len() > 0 {
        match find(s, pat) {
            None => {},
            Some(i) => {
                lemma_find(s, pat);
            },
        }
    }
}

/// Joining the pieces of a split with the pattern gives back the text.
pub proof fn lemma_join_split(s: Seq<char>, pat: Seq<char>)
    requires
        pat.len() > 0,
    ensures
        join(split(s, pat), pat) == s,
    decreases s.len(),
{
    match find(s, pat) {
        None => {},
        Some(i) => {
            lemma_find(s, pat);
            let rest = s.skip(i + pat.len());
            lemma_join_split(rest, pat);
            lemma_split_nonempty(rest, pat);
            let ps = split(s, pat);
            assert(ps.drop_first() =~= split(rest, pat));
            assert(s.subrange(i, i + pat.len()) == pat);
            assert(s =~= s.take(i) + pat + rest);
        },
    }
}

pub proof fn lemma_width_concat(a: Seq<Seq<char>>, b: Seq<Seq<char>>)
    ensures
        width(a + b) == width(a) + width(b),
    decreases b.len(),
{
    if b.len() == 0 {
        assert(a + b =~= a);
    } else {
        assert((a + b).drop_last() =~= a + b.drop_last());
        lemma_width_concat(a, b.drop_last());
    }
}

/// The pieces of a split at one character take the whole text and one more.
pub proof fn lemma_width_split(s: Seq<char>, c: char)
    ensures
        width(split(s, seq![c])) == s.len() + 1,
    decreases s.len(),
{
    let pat = seq![c];
    match find(s, pat) {
        None => {
            assert(width(seq![s]) == width(Seq::<Seq<char>>::empty()) + s.len() + 1) by {
                assert(seq![s].drop_last() =~= Seq::<Seq<char>>::empty());
            }
        },
        Some(i) => {
            lemma_find(s, pat);
            let rest = s.skip(i + 1);
            lemma_width_split(rest, c);
            lemma_width_concat(seq![s.take(i)], split(rest, pat));
            assert(width(seq![s.take(i)]) == width(Seq::<Seq<char>>::empty()) + i + 1) by {
                assert(seq![s.take(i)].drop_last() =~= Seq::<Seq<char>>::empty());
            }
        },
    }
}


pub proof fn lemma_join_push(ps: Seq<Seq<char>>, x: Seq<char>, sep: Seq<char>)
    requires
        ps.len() > 0,
    ensures
        join(ps.push(x), sep) == join(ps, sep) + sep + x,
    decreases ps.len(),
{
    if ps.len() == 1 {
        assert(ps.push(x).drop_first() =~= seq![x]);
        assert(join(seq![x], sep) == x);
    } else {
        assert(ps.push(x).drop_first() =~= ps.drop_first().push(x));
        lemma_join_push(ps.drop_first(), x, sep);
    }
}

/// Appends the characters of `s` to `out`.
pub fn append_str(out: &mut Vec<char>, s: &str)
    ensures
        final(out)@ == old(out)@ + s@,
{
    let v = chars_of(s);
    append_chars(out, &v);
}

} // verus!
