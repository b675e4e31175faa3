//! Parsing of coordinate text: rings separated by runs of fifteen `=`
//! (those in a comment excepted), one point per line, `#` and `//`
//! comments.
//!
//! Coordinates are kept as the text that was written; each one is text that
//! `f64::from_str` accepts (see `number`).
use vstd::prelude::*;
use crate::text::{
    append_chars, chars_of, copy_range, find, find_in, first_where, is_ws, lemma_find,
    lemma_first_where, lemma_first_where_is, lemma_split_nonempty, lines, next_line, pieces,
    push_decimal, ranges_within, single, split, split_ranges, string_of, trim, trim_bounds,
    decimal,
};
use crate::number::{is_float_literal, is_float_literal_at};

verus! {

/// The run of fifteen `=` that separates two rings.
pub open spec fn ring_separator() -> Seq<char> {
    Seq::new(15, |i: int| '=')
}

/// The pieces of `ps`, each trimmed, the empty ones left out.
pub open spec fn trimmed_nonempty(ps: Seq<Seq<char>>) -> Seq<Seq<char>>
    decreases ps.len(),
{
    if ps.len() == 0 {
        seq![]
    } else {
        trimmed_nonempty(ps.drop_last()) + if trim(ps.last()).len() > 0 {
            seq![trim(ps.last())]
        } else {
            seq![]
        }
    }
}

/// A line that, once its comment and surrounding whitespace are gone, is
/// the separator.
pub open spec fn is_separator_line(l: Seq<char>) -> bool {
    line_content(l) == ring_separator()
}

/// The pieces of the line `x` between the separators in its part before the
/// comment; the comment stays with the last piece.
pub open spec fn line_parts(x: Seq<char>) -> Seq<Seq<char>> {
    let w = without_comment(x);
    let ps = split(w, ring_separator());
    ps.drop_last() + seq![ps.last() + x.skip(w.len() as int)]
}

/// The pieces of the text whose lines (split at each line feed) are `xs`:
/// each line cut at its separators, the lines joined again by line feeds.
pub open spec fn cut_pieces(xs: Seq<Seq<char>>) -> Seq<Seq<char>>
    decreases xs.len(),
{
    if xs.len() == 0 {
        seq![seq![]]
    } else {
        let g = cut_pieces(xs.drop_last());
        let lp = line_parts(xs.last());
        let first = if xs.len() == 1 {
            lp[0]
        } else {
            g.last() + seq!['\n'] + lp[0]
        };
        g.drop_last() + seq![first] + lp.drop_first()
    }
}

/// The text of each ring of `input`: the text cut at every separator that
/// stands before the comment of its line, each piece trimmed, empty pieces
/// dropped.
pub open spec fn ring_texts(input: Seq<char>) -> Seq<Seq<char>> {
    trimmed_nonempty(cut_pieces(split(input, seq!['\n'])))
}

pub proof fn lemma_line_parts_nonempty(x: Seq<char>)
    ensures
        line_parts(x).len() >= 1,
{
    lemma_split_nonempty(without_comment(x), ring_separator());
}

pub proof fn lemma_cut_pieces_nonempty(xs: Seq<Seq<char>>)
    ensures
        cut_pieces(xs).len() >= 1,
    decreases xs.len(),
{
    if xs.len() > 0 {
        lemma_cut_pieces_nonempty(xs.drop_last());
        lemma_line_parts_nonempty(xs.last());
    }
}

/// `line` up to its first `#`, or else up to its first `//`.
pub open spec fn without_comment(line: Seq<char>) -> Seq<char> {
    match find(line, seq!['#']) {
        Some(i) => line.take(i),
        None => match find(line, seq!['/', '/']) {
            Some(i) => line.take(i),
            None => line,
        },
    }
}

/// The characters that separate the values on a line.
pub open spec fn is_field_sep(c: char) -> bool {
    c == ',' || is_ws(c) || c == ';' || c == '\t'
}

pub open spec fn field_sep_pred() -> spec_fn(char) -> bool {
    |c: char| is_field_sep(c)
}

/// The fields of `s` that are numbers, in order.
pub open spec fn numeric_tokens(s: Seq<char>) -> Seq<Seq<char>>
    decreases s.len(),
{
    if s.len() == 0 {
        seq![]
    } else {
        let k = first_where(s, field_sep_pred());
        let tok = s.take(k);
        (if is_float_literal(tok) {
            seq![tok]
        } else {
            seq![]
        }) + if k < s.len() {
            proof {
                lemma_first_where(s, field_sep_pred());
            }
            numeric_tokens(s.skip(k + 1))
        } else {
            seq![]
        }
    }
}

/// The coordinates of a point on `line` for `dims` dimensions: the first
/// `dims` numbers, when `dims` is 2 or 3 and there are that many.
pub open spec fn point_fields(line: Seq<char>, dims: nat) -> Option<Seq<Seq<char>>> {
    let toks = numeric_tokens(line);
    if (dims == 2 || dims == 3) && toks.len() >= dims {
        Some(toks.take(dims as int))
    } else {
        None
    }
}

/// What is left of a line once its comment and surrounding whitespace are gone.
pub open spec fn line_content(line: Seq<char>) -> Seq<char> {
    trim(without_comment(line))
}

pub open spec fn invalid_coordinates_message() -> Seq<char> {
    "invalid coordinates; use 'lon lat' or 'lon lat altitude'"@
}

/// `Ring {ring_no} line {line_no}: invalid coordinates; ...`
pub open spec fn error_message(ring_no: nat, line_no: nat) -> Seq<char> {
    "Ring "@ + decimal(ring_no) + " line "@ + decimal(line_no) + ": "@
        + invalid_coordinates_message()
}

/// The points on the lines `ls` of one ring.
pub open spec fn block_points(ls: Seq<Seq<char>>, dims: nat) -> Seq<Seq<Seq<char>>>
    decreases ls.len(),
{
    if ls.len() == 0 {
        seq![]
    } else {
        let c = line_content(ls.last());
        block_points(ls.drop_last(), dims) + match point_fields(c, dims) {
            Some(p) => if c.len() > 0 {
                seq![p]
            } else {
                seq![]
            },
            None => seq![],
        }
    }
}

/// The messages for the lines of `ls` that hold text but no point; the
/// ring is numbered `ring_no`, the lines from 1.
pub open spec fn block_errors(ls: Seq<Seq<char>>, dims: nat, ring_no: nat) -> Seq<Seq<char>>
    decreases ls.len(),
{
    if ls.len() == 0 {
        seq![]
    } else {
        let c = line_content(ls.last());
        block_errors(ls.drop_last(), dims, ring_no) + if c.len() > 0 && point_fields(
            c,
            dims,
        ) is None {
            seq![error_message(ring_no, ls.len())]
        } else {
            seq![]
        }
    }
}

/// The rings of the ring texts `bs`: the points of each, rings without a point left out.
pub open spec fn parsed_rings(bs: Seq<Seq<char>>, dims: nat) -> Seq<Seq<Seq<Seq<char>>>>
    decreases bs.len(),
{
    if bs.len() == 0 {
        seq![]
    } else {
        let pts = block_points(lines(bs.last()), dims);
        parsed_rings(bs.drop_last(), dims) + if pts.len() > 0 {
            seq![pts]
        } else {
            seq![]
        }
    }
}

/// The messages for all the ring texts `bs`, rings numbered from 1.
pub open spec fn parse_errors(bs: Seq<Seq<char>>, dims: nat) -> Seq<Seq<char>>
    decreases bs.len(),
{
    if bs.len() == 0 {
        seq![]
    } else {
        parse_errors(bs.drop_last(), dims) + block_errors(lines(bs.last()), dims, bs.len())
    }
}

pub open spec fn char_seqs(v: Seq<Vec<char>>) -> Seq<Seq<char>> {
    v.map_values(|x: Vec<char>| x@)
}

pub open spec fn string_seqs(v: Seq<String>) -> Seq<Seq<char>> {
    v.map_values(|x: String| x@)
}

/// The ring separator as a vector.
pub fn separator() -> (v: Vec<char>)
    ensures
        v@ == ring_separator(),
{
    let mut v: Vec<char> = Vec::new();
    let mut i: usize = 0;
    while i < 15
        invariant
            i <= 15,
            v@ == Seq::new(i as nat, |j: int| '='),
        decreases 15 - i,
    {
        v.push('=');
        i = i + 1;
        assert(v@ =~= Seq::new(i as nat, |j: int| '='));
    }
    v
}

/// The pieces of the line `s[a..b]` between the separators before its comment.
fn line_parts_of(s: &Vec<char>, a: usize, b: usize) -> (r: Vec<Vec<char>>)
    requires
        a <= b <= s.len(),
    ensures
        char_seqs(r@) == line_parts(s@.subrange(a as int, b as int)),
{
    let ghost x = s@.subrange(a as int, b as int);
    let c = comment_start(s, a, b);
    let sep = separator();
    let rs = split_ranges(s, a, c, &sep);
    let ghost ps = split(s@.subrange(a as int, c as int), ring_separator());
    proof {
        lemma_split_nonempty(s@.subrange(a as int, c as int), ring_separator());
        assert(pieces(s@, rs@).len() == rs@.len());
    }
    let mut r: Vec<Vec<char>> = Vec::new();
    let n = rs.len();
    let mut k: usize = 0;
    while k + 1 < n
        invariant
            n == rs.len(),
            n == ps.len(),
            n >= 1,
            k + 1 <= n,
            ranges_within(s.len() as nat, rs@),
            pieces(s@, rs@) == ps,
            char_seqs(r@) == ps.take(k as int),
        decreases n - k,
    {
        proof {
            crate::text::lemma_range_at(s.len() as nat, rs@, k as int);
        }
        let piece = copy_range(s, rs[k].0, rs[k].1);
        let ghost old_r = r@;
        r.push(piece);
        assert(piece@ == ps[k as int]);
        assert(char_seqs(r@) =~= ps.take(k + 1)) by {
            assert(char_seqs(r@) =~= char_seqs(old_r).push(piece@));
        }
        k = k + 1;
    }
    proof {
        crate::text::lemma_range_at(s.len() as nat, rs@, (n - 1) as int);
    }
    let mut last = copy_range(s, rs[n - 1].0, rs[n - 1].1);
    let dead = copy_range(s, c, b);
    append_chars(&mut last, &dead);
    let ghost old_r = r@;
    r.push(last);
    proof {
        assert(last@ == ps.last() + x.skip(c - a));
        assert(x.skip(c - a) =~= s@.subrange(c as int, b as int));
        assert(char_seqs(r@) =~= char_seqs(old_r).push(last@));
        assert(ps.take(k as int) =~= ps.drop_last());
    }
    r
}

/// The ring texts of `s`.
pub fn ring_texts_of(s: &Vec<char>) -> (bs: Vec<Vec<char>>)
    ensures
        char_seqs(bs@) == ring_texts(s@),
{
    let nl = single('\n');
    let raw = split_ranges(s, 0, s.len(), &nl);
    let ghost xs = split(s@, seq!['\n']);
    proof {
        assert(s@.subrange(0, s.len() as int) =~= s@);
        assert(nl@ =~= seq!['\n']);
        lemma_split_nonempty(s@, seq!['\n']);
        assert(pieces(s@, raw@).len() == raw@.len());
        assert(xs.take(0) =~= Seq::<Seq<char>>::empty());
        assert(cut_pieces(xs.take(0)).drop_last() =~= Seq::<Seq<char>>::empty());
    }
    let mut bs: Vec<Vec<char>> = Vec::new();
    let mut cur: Vec<char> = Vec::new();
    let mut li: usize = 0;
    while li < raw.len()
        invariant
            xs == split(s@, seq!['\n']),
            pieces(s@, raw@) == xs,
            raw.len() == xs.len(),
            ranges_within(s.len() as nat, raw@),
            li <= raw.len(),
            char_seqs(bs@) == trimmed_nonempty(cut_pieces(xs.take(li as int)).drop_last()),
            cur@ == cut_pieces(xs.take(li as int)).last(),
        decreases raw.len() - li,
    {
        proof {
            crate::text::lemma_range_at(s.len() as nat, raw@, li as int);
            lemma_cut_pieces_nonempty(xs.take(li as int));
        }
        let (a, b) = raw[li];
        let lp = line_parts_of(s, a, b);
        let ghost x = s@.subrange(a as int, b as int);
        let ghost g = cut_pieces(xs.take(li as int));
        let ghost lps = char_seqs(lp@);
        proof {
            assert(x == xs[li as int]);
            lemma_line_parts_nonempty(x);
            assert(xs.take(li + 1).drop_last() =~= xs.take(li as int));
            assert(xs.take(li + 1).last() == x);
        }
        let ghost first = if li == 0 {
            lps[0]
        } else {
            g.last() + seq!['\n'] + lps[0]
        };
        if li > 0 {
            cur.push('\n');
        }
        append_chars(&mut cur, &lp[0]);
        proof {
            if li == 0 {
                assert(g =~= seq![Seq::<char>::empty()]);
                assert(cur@ =~= lps[0]);
            } else {
                assert(cur@ =~= first);
            }
            assert(g.drop_last() + seq![first] + lps.subrange(1, 1) =~= g.drop_last() + seq![first]);
            assert((g.drop_last() + seq![first]).drop_last() =~= g.drop_last());
            assert((g.drop_last() + seq![first]).last() == first);
        }
        let mut k: usize = 1;
        while k < lp.len()
            invariant
                lps == char_seqs(lp@),
                lps.len() >= 1,
                1 <= k <= lps.len(),
                char_seqs(bs@) == trimmed_nonempty((g.drop_last() + seq![first] + lps.subrange(1, k as int)).drop_last()),
                cur@ == (g.drop_last() + seq![first] + lps.subrange(1, k as int)).last(),
            decreases lp.len() - k,
        {
            let ghost q = g.drop_last() + seq![first] + lps.subrange(1, k as int);
            let ghost q2 = g.drop_last() + seq![first] + lps.subrange(1, k + 1);
            let (u, v) = trim_bounds(&cur, 0, cur.len());
            let ghost old_bs = bs@;
            proof {
                assert(cur@.subrange(0, cur.len() as int) =~= cur@);
                assert(q2 =~= q.push(lps[k as int]));
                assert(q2.drop_last() =~= q);
                assert(q =~= q.drop_last().push(q.last()));
            }
            if u < v {
                let block = copy_range(&cur, u, v);
                bs.push(block);
                assert(char_seqs(bs@) =~= char_seqs(old_bs).push(block@));
            }
            cur = copy_range(&lp[k], 0, lp[k].len());
            proof {
                assert(lp[k as int]@.subrange(0, lp[k as int]@.len() as int) =~= lp[k as int]@);
            }
            k = k + 1;
        }
        proof {
            assert(lps.subrange(1, lps.len() as int) =~= lps.drop_first());
            assert(cut_pieces(xs.take(li + 1)) == g.drop_last() + seq![first] + lps.drop_first());
        }
        li = li + 1;
    }
    proof {
        assert(xs.take(raw.len() as int) =~= xs);
        lemma_cut_pieces_nonempty(xs);
    }
    let ghost g = cut_pieces(xs);
    let (u, v) = trim_bounds(&cur, 0, cur.len());
    let ghost old_bs = bs@;
    proof {
        assert(cur@.subrange(0, cur.len() as int) =~= cur@);
        assert(g =~= g.drop_last().push(g.last()));
    }
    if u < v {
        let block = copy_range(&cur, u, v);
        bs.push(block);
        assert(char_seqs(bs@) =~= char_seqs(old_bs).push(block@));
    }
    bs
}

/// The text of each ring of `input`, trimmed, empty ones left out.
pub fn split_rings(input: &str) -> (r: Vec<String>)
    ensures
        string_seqs(r@) == ring_texts(input@),
{
    let s = chars_of(input);
    let bs = ring_texts_of(&s);
    let mut r: Vec<String> = Vec::new();
    let mut k: usize = 0;
    while k < bs.len()
        invariant
            k <= bs.len(),
            string_seqs(r@) == char_seqs(bs@).take(k as int),
        decreases bs.len() - k,
    {
        let t = string_of(&bs[k]);
        let ghost old_r = r@;
        r.push(t);
        assert(string_seqs(r@) =~= char_seqs(bs@).take(k + 1)) by {
            assert(r@ == old_r.push(t));
            assert(string_seqs(old_r).len() == old_r.len());
            assert(old_r.len() == k);
            assert(string_seqs(r@).len() == k + 1);
            assert forall|j: int| 0 <= j <= k implies #[trigger] string_seqs(r@)[j] == char_seqs(
                bs@,
            ).take(k + 1)[j] by {
                if j < k {
                    assert(string_seqs(r@)[j] == string_seqs(old_r)[j]);
                }
            }
        }
        k = k + 1;
    }
    assert(char_seqs(bs@).take(bs.len() as int) =~= char_seqs(bs@));
    r
}

/// The end of `s[a..b]` once its comment is cut off.
pub fn comment_start(s: &Vec<char>, a: usize, b: usize) -> (c: usize)
    requires
        a <= b <= s.len(),
    ensures
        a <= c <= b,
        s@.subrange(a as int, c as int) == without_comment(s@.subrange(a as int, b as int)),
{
    let ghost t = s@.subrange(a as int, b as int);
    let hash = single('#');
    let mut slashes = single('/');
    slashes.push('/');
    assert(slashes@ =~= seq!['/', '/']);
    match find_in(s, a, b, &hash) {
        Some(k) => {
            assert(t.take(k - a) =~= s@.subrange(a as int, k as int));
            k
        },
        None => match find_in(s, a, b, &slashes) {
            Some(k) => {
                assert(t.take(k - a) =~= s@.subrange(a as int, k as int));
                k
            },
            None => b,
        },
    }
}

/// `line` up to its first `#`, or else up to its first `//`.
pub fn strip_comment(line: &str) -> (r: &str)
    ensures
        r@ == without_comment(line@),
{
    let s = chars_of(line);
    let c = comment_start(&s, 0, s.len());
    assert(s@.subrange(0, s.len() as int) =~= s@);
    line.substring_char(0, c)
}


pub proof fn lemma_lines_len(s: Seq<char>)
    ensures
        lines(s).len() <= s.len(),
    decreases s.len(),
{
    if s.len() > 0 {
        match find(s, seq!['\n']) {
            None => {},
            Some(i) => {
                lemma_find(s, seq!['\n']);
                lemma_lines_len(s.skip(i + 1));
            },
        }
    }
}

/// The position of the first value separator in `s[lo..hi]`, or `hi`.
fn field_end(s: &Vec<char>, lo: usize, hi: usize) -> (r: usize)
    requires
        lo <= hi <= s.len(),
    ensures
        r - lo == first_where(s@.subrange(lo as int, hi as int), field_sep_pred()),
        lo <= r <= hi,
{
    let ghost t = s@.subrange(lo as int, hi as int);
    let mut i = lo;
    while i < hi && !(s[i] == ',' || crate::text::is_whitespace(s[i]) || s[i] == ';' || s[i] == '\t')
        invariant
            lo <= i <= hi <= s.len(),
            t == s@.subrange(lo as int, hi as int),
            forall|j: int| 0 <= j < i - lo ==> !(field_sep_pred())(#[trigger] t[j]),
        decreases hi - i,
    {
        assert(t[i - lo] == s@[i as int]);
        i = i + 1;
    }
    proof {
        if i < hi {
            assert(t[i - lo] == s@[i as int]);
        }
        lemma_first_where_is(t, field_sep_pred(), i - lo);
    }
    i
}

/// The ranges of the numbers on `s[lo..hi]`.
pub fn number_ranges(s: &Vec<char>, lo: usize, hi: usize) -> (rs: Vec<(usize, usize)>)
    requires
        lo <= hi <= s.len(),
    ensures
        ranges_within(s.len() as nat, rs@),
        pieces(s@, rs@) == numeric_tokens(s@.subrange(lo as int, hi as int)),
{
    let mut rs: Vec<(usize, usize)> = Vec::new();
    let mut pos = lo;
    while pos < hi
        invariant
            lo <= pos <= hi <= s.len(),
            ranges_within(s.len() as nat, rs@),
            pieces(s@, rs@) + numeric_tokens(s@.subrange(pos as int, hi as int)) == numeric_tokens(
                s@.subrange(lo as int, hi as int),
            ),
        decreases hi - pos,
    {
        let ghost t = s@.subrange(pos as int, hi as int);
        let ghost old_rs = rs@;
        let k = field_end(s, pos, hi);
        let ghost tok = t.take(k - pos);
        assert(tok =~= s@.subrange(pos as int, k as int));
        let is_num = is_float_literal_at(s, pos, k);
        if is_num {
            rs.push((pos, k));
            proof {
                assert forall|j: int| 0 <= j < rs@.len() implies #[trigger] rs@[j].0 <= rs@[j].1
                    <= s.len() by {
                    if j < old_rs.len() {
                        assert(rs@[j] == old_rs[j]);
                    }
                }
                assert(pieces(s@, rs@) =~= pieces(s@, old_rs).push(tok));
            }
        }
        proof {
            lemma_first_where(t, field_sep_pred());
            if k < hi {
                assert(t.skip(k - pos + 1) =~= s@.subrange(k + 1, hi as int));
            } else {
                assert(s@.subrange(hi as int, hi as int) =~= Seq::<char>::empty());
            }
        }
        if k < hi {
            pos = k + 1;
        } else {
            pos = hi;
        }
        proof {
            if is_num {
                assert(pieces(s@, rs@) + numeric_tokens(s@.subrange(pos as int, hi as int)) =~= 
                    pieces(s@, old_rs) + numeric_tokens(t));
            } else {
                assert(pieces(s@, rs@) + numeric_tokens(s@.subrange(pos as int, hi as int)) =~= 
                    pieces(s@, old_rs) + numeric_tokens(t));
            }
        }
    }
    assert(s@.subrange(pos as int, hi as int) =~= Seq::<char>::empty());
    assert(pieces(s@, rs@) + Seq::<Seq<char>>::empty() =~= pieces(s@, rs@));
    rs
}

/// What one line of a ring holds.
enum LineKind {
    /// Nothing but whitespace and comment.
    Blank,
    /// A point: the ranges of its coordinates.
    Point(Vec<(usize, usize)>),
    /// Text that is no point.
    Invalid,
}

fn classify_line(s: &Vec<char>, a: usize, b: usize, dims: usize) -> (k: LineKind)
    requires
        a <= b <= s.len(),
    ensures
        ({
            let c = line_content(s@.subrange(a as int, b as int));
            match k {
                LineKind::Blank => c.len() == 0,
                LineKind::Point(rs) => c.len() > 0 && rs.len() == dims && ranges_within(
                    s.len() as nat,
                    rs@,
                ) && point_fields(c, dims as nat) == Some(pieces(s@, rs@)),
                LineKind::Invalid => c.len() > 0 && point_fields(c, dims as nat) is None,
            }
        }),
{
    let c = comment_start(s, a, b);
    let (x, y) = trim_bounds(s, a, c);
    if x == y {
        return LineKind::Blank;
    }
    let mut rs = number_ranges(s, x, y);
    if (dims == 2 || dims == 3) && rs.len() >= dims {
        let ghost old_rs = rs@;
        rs.truncate(dims);
        assert(pieces(s@, rs@) =~= pieces(s@, old_rs).take(dims as int));
        LineKind::Point(rs)
    } else {
        LineKind::Invalid
    }
}

/// The texts `s[r.0..r.1]` for the ranges `rs`.
fn texts_of(s: &Vec<char>, rs: &Vec<(usize, usize)>) -> (r: Vec<String>)
    requires
        ranges_within(s.len() as nat, rs@),
    ensures
        string_seqs(r@) == pieces(s@, rs@),
{
    let mut r: Vec<String> = Vec::new();
    let mut k: usize = 0;
    while k < rs.len()
        invariant
            k <= rs.len(),
            ranges_within(s.len() as nat, rs@),
            string_seqs(r@) == pieces(s@, rs@).take(k as int),
        decreases rs.len() - k,
    {
        let (a, b) = rs[k];
        assert(rs@[k as int].0 <= rs@[k as int].1 <= s.len());
        let t = string_of(&copy_range(s, a, b));
        let ghost old_r = r@;
        r.push(t);
        assert(string_seqs(r@) =~= pieces(s@, rs@).take(k + 1)) by {
            assert(r@ == old_r.push(t));
            assert(string_seqs(old_r).len() == old_r.len());
            assert(string_seqs(r@).len() == k + 1);
            assert forall|j: int| 0 <= j <= k implies #[trigger] string_seqs(r@)[j] == pieces(
                s@,
                rs@,
            ).take(k + 1)[j] by {
                if j < k {
                    assert(string_seqs(r@)[j] == string_seqs(old_r)[j]);
                }
            }
        }
        k = k + 1;
    }
    assert(pieces(s@, rs@).take(rs.len() as int) =~= pieces(s@, rs@));
    r
}

fn invalid_message() -> (v: Vec<char>)
    ensures
        v@ == invalid_coordinates_message(),
{
    chars_of("invalid coordinates; use 'lon lat' or 'lon lat altitude'")
}

/// The coordinates of a point on `line`: its first `dims` numbers, when
/// `dims` is 2 or 3 and the line holds that many; else the message that
/// says how a point is written.
pub fn parse_point_line(line: &str, dims: usize) -> (r: Result<Vec<String>, String>)
    ensures
        match r {
            Ok(v) => point_fields(line@, dims as nat) == Some(string_seqs(v@)),
            Err(m) => point_fields(line@, dims as nat) is None && m@
                == invalid_coordinates_message(),
        },
{
    let s = chars_of(line);
    let mut rs = number_ranges(&s, 0, s.len());
    assert(s@.subrange(0, s.len() as int) =~= s@);
    if (dims == 2 || dims == 3) && rs.len() >= dims {
        let ghost old_rs = rs@;
        rs.truncate(dims);
        assert(pieces(s@, rs@) =~= pieces(s@, old_rs).take(dims as int));
        Ok(texts_of(&s, &rs))
    } else {
        Err(string_of(&invalid_message()))
    }
}

/// `Ring {ring_no} line {line_no}: invalid coordinates; ...`
fn error_text(ring_no: usize, line_no: usize) -> (r: String)
    ensures
        r@ == error_message(ring_no as nat, line_no as nat),
{
    let mut v = chars_of("Ring ");
    push_decimal(&mut v, ring_no);
    append_chars(&mut v, &chars_of(" line "));
    push_decimal(&mut v, line_no);
    append_chars(&mut v, &chars_of(": "));
    append_chars(&mut v, &invalid_message());
    string_of(&v)
}


/// A point of a 2D ring: longitude and latitude as written.
#[derive(Debug, Clone)]
pub struct Point2D {
    pub lon: String,
    pub lat: String,
}

/// A point of a 3D ring: longitude, latitude and altitude as written.
#[derive(Debug, Clone)]
pub struct Point3D {
    pub lon: String,
    pub lat: String,
    pub alt: String,
}

#[derive(Debug, Clone)]
pub struct Ring2D {
    pub points: Vec<Point2D>,
}

#[derive(Debug, Clone)]
pub struct Ring3D {
    pub points: Vec<Point3D>,
}

/// The rings of a 2D text and the messages for its lines that hold no point.
#[derive(Debug, Clone)]
pub struct ParseResult2D {
    pub rings: Vec<Ring2D>,
    pub errors: Vec<String>,
}

/// The rings of a 3D text and the messages for its lines that hold no point.
#[derive(Debug, Clone)]
pub struct ParseResult3D {
    pub rings: Vec<Ring3D>,
    pub errors: Vec<String>,
}

impl View for Point2D {
    type V = Seq<Seq<char>>;

    open spec fn view(&self) -> Seq<Seq<char>> {
        seq![self.lon@, self.lat@]
    }
}

impl View for Point3D {
    type V = Seq<Seq<char>>;

    open spec fn view(&self) -> Seq<Seq<char>> {
        seq![self.lon@, self.lat@, self.alt@]
    }
}

impl View for Ring2D {
    type V = Seq<Seq<Seq<char>>>;

    open spec fn view(&self) -> Seq<Seq<Seq<char>>> {
        self.points@.map_values(|p: Point2D| p@)
    }
}

impl View for Ring3D {
    type V = Seq<Seq<Seq<char>>>;

    open spec fn view(&self) -> Seq<Seq<Seq<char>>> {
        self.points@.map_values(|p: Point3D| p@)
    }
}

impl View for ParseResult2D {
    type V = (Seq<Seq<Seq<Seq<char>>>>, Seq<Seq<char>>);

    open spec fn view(&self) -> (Seq<Seq<Seq<Seq<char>>>>, Seq<Seq<char>>) {
        (self.rings@.map_values(|r: Ring2D| r@), string_seqs(self.errors@))
    }
}

impl View for ParseResult3D {
    type V = (Seq<Seq<Seq<Seq<char>>>>, Seq<Seq<char>>);

    open spec fn view(&self) -> (Seq<Seq<Seq<Seq<char>>>>, Seq<Seq<char>>) {
        (self.rings@.map_values(|r: Ring3D| r@), string_seqs(self.errors@))
    }
}

impl Default for ParseResult2D {
    /// No ring and no message.
    fn default() -> (r: Self)
        ensures
            r@.0.len() == 0,
            r@.1.len() == 0,
    {
        ParseResult2D { rings: Vec::new(), errors: Vec::new() }
    }
}

impl Default for ParseResult3D {
    /// No ring and no message.
    fn default() -> (r: Self)
        ensures
            r@.0.len() == 0,
            r@.1.len() == 0,
    {
        ParseResult3D { rings: Vec::new(), errors: Vec::new() }
    }
}

/// The longitude and latitude of each point of `ring`.
pub open spec fn flat_ring(ring: Seq<Seq<Seq<char>>>) -> Seq<Seq<Seq<char>>> {
    ring.map_values(|p: Seq<Seq<char>>| p.take(2))
}

/// The longitude and latitude of each point of `rings`.
pub open spec fn flat_rings(rings: Seq<Seq<Seq<Seq<char>>>>) -> Seq<Seq<Seq<Seq<char>>>> {
    rings.map_values(|r: Seq<Seq<Seq<char>>>| flat_ring(r))
}

/// The rings of `input` read with `dims` values per point, as 2D rings:
/// the longitude and latitude of each point.
pub fn parse_rings(input: &str, dims: usize) -> (r: ParseResult2D)
    ensures
        r@.0 == flat_rings(parsed_rings(ring_texts(input@), dims as nat)),
        r@.1 == parse_errors(ring_texts(input@), dims as nat),
{
    let s = chars_of(input);
    let blocks = ring_texts_of(&s);
    let ghost bs = char_seqs(blocks@);
    let mut rings: Vec<Ring2D> = Vec::new();
    let mut errors: Vec<String> = Vec::new();
    let mut bi: usize = 0;
    while bi < blocks.len()
        invariant
            bi <= blocks.len(),
            bs == char_seqs(blocks@),
            rings@.map_values(|r: Ring2D| r@) == flat_rings(parsed_rings(bs.take(bi as int), dims as nat)),
            string_seqs(errors@) == parse_errors(bs.take(bi as int), dims as nat),
        decreases blocks.len() - bi,
    {
        let block = &blocks[bi];
        let ghost ls = lines(block@);
        let mut points: Vec<Point2D> = Vec::new();
        let mut pos: usize = 0;
        let mut li: usize = 0;
        proof {
            lemma_lines_len(block@);
            assert(block@.skip(0) =~= block@);
            assert(ls.skip(0) =~= ls);
            assert(points@.map_values(|p: Point2D| p@) =~= flat_ring(block_points(ls.take(0), dims as nat)));
            assert(bs.take(bi as int) + seq![bs[bi as int]] =~= bs.take(bi + 1));
            assert(ls.take(0) =~= Seq::<Seq<char>>::empty());
            assert(string_seqs(errors@) =~= parse_errors(bs.take(bi as int), dims as nat) + block_errors(ls.take(0), dims as nat, (bi + 1) as nat));
        }
        while pos < block.len()
            invariant
                bi < blocks.len(),
                block == blocks[bi as int],
                ls == lines(block@),
                pos <= block.len(),
                li <= ls.len(),
                ls.len() <= block.len(),
                lines(block@.skip(pos as int)) == ls.skip(li as int),
                points@.map_values(|p: Point2D| p@) == flat_ring(block_points(ls.take(li as int), dims as nat)),
                string_seqs(errors@) == parse_errors(bs.take(bi as int), dims as nat) + block_errors(
                    ls.take(li as int),
                    dims as nat,
                    (bi + 1) as nat,
                ),
            decreases block.len() - pos,
        {
            let (a, b, next) = next_line(block, pos);
            proof {
                assert(ls.skip(li as int).len() > 0);
                assert(ls[li as int] == ls.skip(li as int)[0]);
                assert(ls.skip(li + 1) =~= ls.skip(li as int).drop_first());
                assert(ls.take(li + 1).drop_last() =~= ls.take(li as int));
            }
            let ghost old_points = points@;
            let ghost old_errors = errors@;
            match classify_line(block, a, b, dims) {
                LineKind::Blank => {},
                LineKind::Point(rs) => {
                    proof {
                        let c = line_content(block@.subrange(a as int, b as int));
                        assert(point_fields(c, dims as nat) is Some);
                        assert(dims == 2 || dims == 3);
                        assert(rs@.len() >= 2);
                        assert(ranges_within(block.len() as nat, rs@));
                        crate::text::lemma_range_at(block.len() as nat, rs@, 0);
                        crate::text::lemma_range_at(block.len() as nat, rs@, 1);
                    }
                    let lon = string_of(&copy_range(block, rs[0].0, rs[0].1));
                    let lat = string_of(&copy_range(block, rs[1].0, rs[1].1));
                    let pt = Point2D { lon, lat };
                    proof {
                        assert(pt@ =~= pieces(block@, rs@).take(2));
                    }
                    points.push(pt);
                    assert(points@.map_values(|p: Point2D| p@) =~= old_points.map_values(|p: Point2D| p@).push(pt@));
                },
                LineKind::Invalid => {
                    let msg = error_text(bi + 1, li + 1);
                    errors.push(msg);
                    assert(string_seqs(errors@) =~= string_seqs(old_errors).push(msg@));
                },
            }
            li = li + 1;
            pos = next;
        }
        proof {
            assert(block@.skip(pos as int) =~= Seq::<char>::empty());
            assert(ls.take(li as int) =~= ls);
            assert(bs.take(bi + 1).drop_last() =~= bs.take(bi as int));
        }
        let ghost old_rings = rings@;
        if points.len() > 0 {
            let ring = Ring2D { points };
            rings.push(ring);
            assert(rings@.map_values(|r: Ring2D| r@) =~= old_rings.map_values(|r: Ring2D| r@).push(ring@));
        }
        bi = bi + 1;
    }
    assert(bs.take(blocks.len() as int) =~= bs);
    ParseResult2D { rings, errors }
}

/// The 3D rings of `input`: each point is the first three numbers of a
/// line; lines that hold text but fewer numbers give a message.
pub fn parse_3d(input: &str) -> (r: ParseResult3D)
    ensures
        r@.0 == parsed_rings(ring_texts(input@), 3),
        r@.1 == parse_errors(ring_texts(input@), 3),
{
    let dims: usize = 3;
    let s = chars_of(input);
    let blocks = ring_texts_of(&s);
    let ghost bs = char_seqs(blocks@);
    let mut rings: Vec<Ring3D> = Vec::new();
    let mut errors: Vec<String> = Vec::new();
    let mut bi: usize = 0;
    while bi < blocks.len()
        invariant
            dims == 3,
            bi <= blocks.len(),
            bs == char_seqs(blocks@),
            rings@.map_values(|r: Ring3D| r@) == parsed_rings(bs.take(bi as int), dims as nat),
            string_seqs(errors@) == parse_errors(bs.take(bi as int), dims as nat),
        decreases blocks.len() - bi,
    {
        let block = &blocks[bi];
        let ghost ls = lines(block@);
        let mut points: Vec<Point3D> = Vec::new();
        let mut pos: usize = 0;
        let mut li: usize = 0;
        proof {
            lemma_lines_len(block@);
            assert(block@.skip(0) =~= block@);
            assert(ls.skip(0) =~= ls);
            assert(points@.map_values(|p: Point3D| p@) =~= block_points(ls.take(0), dims as nat));
            assert(bs.take(bi as int) + seq![bs[bi as int]] =~= bs.take(bi + 1));
            assert(ls.take(0) =~= Seq::<Seq<char>>::empty());
            assert(string_seqs(errors@) =~= parse_errors(bs.take(bi as int), dims as nat) + block_errors(ls.take(0), dims as nat, (bi + 1) as nat));
        }
        while pos < block.len()
            invariant
                dims == 3,
                bi < blocks.len(),
                block == blocks[bi as int],
                ls == lines(block@),
                pos <= block.len(),
                li <= ls.len(),
                ls.len() <= block.len(),
                lines(block@.skip(pos as int)) == ls.skip(li as int),
                points@.map_values(|p: Point3D| p@) == block_points(ls.take(li as int), dims as nat),
                string_seqs(errors@) == parse_errors(bs.take(bi as int), dims as nat) + block_errors(
                    ls.take(li as int),
                    dims as nat,
                    (bi + 1) as nat,
                ),
            decreases block.len() - pos,
        {
            let (a, b, next) = next_line(block, pos);
            proof {
                assert(ls.skip(li as int).len() > 0);
                assert(ls[li as int] == ls.skip(li as int)[0]);
                assert(ls.skip(li + 1) =~= ls.skip(li as int).drop_first());
                assert(ls.take(li + 1).drop_last() =~= ls.take(li as int));
            }
            let ghost old_points = points@;
            let ghost old_errors = errors@;
            match classify_line(block, a, b, dims) {
                LineKind::Blank => {},
                LineKind::Point(rs) => {
                    proof {
                        let c = line_content(block@.subrange(a as int, b as int));
                        assert(point_fields(c, dims as nat) is Some);
                        assert(rs@.len() == 3);
                        assert(ranges_within(block.len() as nat, rs@));
                        crate::text::lemma_range_at(block.len() as nat, rs@, 0);
                        crate::text::lemma_range_at(block.len() as nat, rs@, 1);
                        crate::text::lemma_range_at(block.len() as nat, rs@, 2);
                    }
                    let lon = string_of(&copy_range(block, rs[0].0, rs[0].1));
                    let lat = string_of(&copy_range(block, rs[1].0, rs[1].1));
                    let alt = string_of(&copy_range(block, rs[2].0, rs[2].1));
                    let pt = Point3D { lon, lat, alt };
                    proof {
                        assert(pt@ =~= pieces(block@, rs@));
                    }
                    points.push(pt);
                    assert(points@.map_values(|p: Point3D| p@) =~= old_points.map_values(|p: Point3D| p@).push(pt@));
                },
                LineKind::Invalid => {
                    let msg = error_text(bi + 1, li + 1);
                    errors.push(msg);
                    assert(string_seqs(errors@) =~= string_seqs(old_errors).push(msg@));
                },
            }
            li = li + 1;
            pos = next;
        }
        proof {
            assert(block@.skip(pos as int) =~= Seq::<char>::empty());
            assert(ls.take(li as int) =~= ls);
            assert(bs.take(bi + 1).drop_last() =~= bs.take(bi as int));
        }
        let ghost old_rings = rings@;
        if points.len() > 0 {
            let ring = Ring3D { points };
            rings.push(ring);
            assert(rings@.map_values(|r: Ring3D| r@) =~= old_rings.map_values(|r: Ring3D| r@).push(ring@));
        }
        bi = bi + 1;
    }
    assert(bs.take(blocks.len() as int) =~= bs);
    ParseResult3D { rings, errors }
}


pub proof fn lemma_block_point_len(ls: Seq<Seq<char>>, dims: nat)
    ensures
        forall|i: int| 0 <= i < block_points(ls, dims).len() ==> (#[trigger] block_points(ls, dims)[i]).len() == dims,
    decreases ls.len(),
{
    if ls.len() > 0 {
        lemma_block_point_len(ls.drop_last(), dims);
        let c = line_content(ls.last());
        let prev = block_points(ls.drop_last(), dims);
        match point_fields(c, dims) {
            Some(p) => {
                assert(p.len() == dims);
                if c.len() > 0 {
                    assert(block_points(ls, dims) == prev + seq![p]);
                    assert forall|i: int| 0 <= i < block_points(ls, dims).len() implies (#[trigger] block_points(ls, dims)[i]).len() == dims by {
                        if i < prev.len() {
                            assert(block_points(ls, dims)[i] == prev[i]);
                        }
                    }
                } else {
                    assert(block_points(ls, dims) =~= prev);
                }
            },
            None => {
                assert(block_points(ls, dims) =~= prev);
            },
        }
    }
}

pub proof fn lemma_parsed_point_len(bs: Seq<Seq<char>>, dims: nat)
    ensures
        forall|i: int, j: int| 0 <= i < parsed_rings(bs, dims).len() && 0 <= j < parsed_rings(bs, dims)[i].len()
            ==> (#[trigger] parsed_rings(bs, dims)[i][j]).len() == dims,
    decreases bs.len(),
{
    if bs.len() > 0 {
        lemma_parsed_point_len(bs.drop_last(), dims);
        lemma_block_point_len(lines(bs.last()), dims);
        let prev = parsed_rings(bs.drop_last(), dims);
        let pts = block_points(lines(bs.last()), dims);
        if pts.len() > 0 {
            assert(parsed_rings(bs, dims) == prev + seq![pts]);
            assert forall|i: int, j: int| 0 <= i < parsed_rings(bs, dims).len() && 0 <= j < parsed_rings(bs, dims)[i].len()
                implies (#[trigger] parsed_rings(bs, dims)[i][j]).len() == dims by {
                if i < prev.len() {
                    assert(parsed_rings(bs, dims)[i] == prev[i]);
                } else {
                    assert(parsed_rings(bs, dims)[i] == pts);
                }
            }
        } else {
            assert(parsed_rings(bs, dims) =~= prev);
        }
    }
}

/// The 2D rings of `input`: each point is the first two numbers of a
/// line; lines that hold text but fewer numbers give a message.
pub fn parse_2d(input: &str) -> (r: ParseResult2D)
    ensures
        r@.0 == parsed_rings(ring_texts(input@), 2),
        r@.1 == parse_errors(ring_texts(input@), 2),
{
    let r = parse_rings(input, 2);
    proof {
        let rings = parsed_rings(ring_texts(input@), 2);
        lemma_parsed_point_len(ring_texts(input@), 2);
        assert forall|i: int| 0 <= i < rings.len() implies #[trigger] flat_rings(rings)[i] == rings[i] by {
            assert forall|j: int| 0 <= j < rings[i].len() implies #[trigger] flat_ring(rings[i])[j] == rings[i][j] by {
                assert(rings[i][j].len() == 2);
                assert(rings[i][j].take(2) =~= rings[i][j]);
            }
            assert(flat_ring(rings[i]) =~= rings[i]);
        }
        assert(flat_rings(rings) =~= rings);
    }
    r
}

} // verus!
