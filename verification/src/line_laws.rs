//! Properties of reading rings: where the text is cut into rings, that a
//! picked point selects the line it was read from, what joining texts and
//! merging files keep, and how the 3D reading relates to the 2D one.
//!
//! The parser cuts the text into pieces at the separators and reads each
//! piece line by line; the selection walks the lines of the whole text.
//! Both are compared here with one line-by-line reading (`model`), which
//! agrees with the parser when every separator stands alone on its line.
use vstd::prelude::*;
use crate::laws::{
    lemma_find_past, lemma_find_prefix, lemma_parsed_rings_concat, lemma_split_concat, lemma_tn_one,
    lemma_trim_start_all_ws, lemma_trim_ws_prefix, lemma_trim_ws_suffix, no_straddle,
};
use crate::import::{merge_joint, merged};
use crate::parser::{
    block_errors, flat_ring, flat_rings, lemma_line_parts_nonempty, numeric_tokens, parse_errors, block_points, cut_pieces, is_separator_line, lemma_cut_pieces_nonempty, line_content,
    line_parts, parsed_rings, point_fields, ring_separator, ring_texts, trimmed_nonempty,
    without_comment,
};
use crate::selection::{lemma_scan_found, looks_like_point, scan, selected_line};
use crate::text::{
    all_ws, find, is_ws, join, lemma_find, lemma_find_is, lemma_join_push, lemma_join_split,
    lemma_split_nonempty, lines, match_at,
    split, strip_cr, trim, trim_end, trim_start,
};

verus! {

/// The point a line holds, if any.
pub open spec fn point_of_line(l: Seq<char>, dims: nat) -> Option<Seq<Seq<char>>> {
    if line_content(l).len() > 0 {
        point_fields(line_content(l), dims)
    } else {
        None
    }
}

/// Reading lines one by one: the rings finished so far (those with a
/// point) and the points of the ring being read.
pub open spec fn model(ls: Seq<Seq<char>>, dims: nat) -> (Seq<Seq<Seq<Seq<char>>>>, Seq<Seq<Seq<char>>>)
    decreases ls.len(),
{
    if ls.len() == 0 {
        (seq![], seq![])
    } else {
        let prev = model(ls.drop_last(), dims);
        if is_separator_line(ls.last()) {
            if prev.1.len() > 0 {
                (prev.0.push(prev.1), seq![])
            } else {
                (prev.0, seq![])
            }
        } else {
            match point_of_line(ls.last(), dims) {
                Some(pt) => (prev.0, prev.1.push(pt)),
                None => prev,
            }
        }
    }
}

/// The rings that reading the lines `ls` one by one gives.
pub open spec fn model_rings(ls: Seq<Seq<char>>, dims: nat) -> Seq<Seq<Seq<Seq<char>>>> {
    if model(ls, dims).1.len() > 0 {
        model(ls, dims).0.push(model(ls, dims).1)
    } else {
        model(ls, dims).0
    }
}

/// The state the selection keeps while no line is found.
pub open spec fn scan_state(ls: Seq<Seq<char>>, dims: nat) -> (nat, nat, bool)
    decreases ls.len(),
{
    if ls.len() == 0 {
        (0, 0, false)
    } else {
        let prev = scan_state(ls.drop_last(), dims);
        let st = trim(without_comment(ls.last()));
        if st.len() == 0 {
            prev
        } else if st == ring_separator() {
            if prev.2 {
                (prev.0 + 1, 0, false)
            } else {
                prev
            }
        } else if looks_like_point(st, dims) {
            (prev.0, prev.1 + 1, true)
        } else {
            prev
        }
    }
}

/// No character of `t` is `c`.
pub open spec fn avoids(t: Seq<char>, c: char) -> bool {
    forall|i: int| 0 <= i < t.len() ==> #[trigger] t[i] != c
}


proof fn lemma_scan_state(ls: Seq<Seq<char>>, tr: nat, tp: nat, dims: nat)
    ensures
        scan(ls, tr, tp, dims).0 is None ==> (scan(ls, tr, tp, dims).1, scan(ls, tr, tp, dims).2,
            scan(ls, tr, tp, dims).3) == scan_state(ls, dims),
    decreases ls.len(),
{
    if ls.len() > 0 {
        lemma_scan_state(ls.drop_last(), tr, tp, dims);
    }
}

pub(crate) proof fn lemma_without_comment_prefix(l: Seq<char>)
    ensures
        without_comment(l).len() <= l.len(),
        without_comment(l) == l.take(without_comment(l).len() as int),
{
    crate::text::lemma_find(l, seq!['#']);
    crate::text::lemma_find(l, seq!['/', '/']);
    match crate::text::find(l, seq!['#']) {
        Some(i) => {},
        None => match crate::text::find(l, seq!['/', '/']) {
            Some(i) => {},
            None => {
                assert(l.take(l.len() as int) =~= l);
            },
        },
    }
}

/// The separator line is a separator line.
proof fn lemma_sep_line()
    ensures
        is_separator_line(ring_separator()),
        line_content(ring_separator()).len() > 0,
        without_comment(ring_separator()) == ring_separator(),
{
    let l = ring_separator();
    lemma_find(l, seq!['#']);
    lemma_find(l, seq!['/', '/']);
    assert(find(l, seq!['#']) is None) by {
        if find(l, seq!['#']) is Some {
            let i = find(l, seq!['#'])->Some_0;
            assert(l.subrange(i, i + 1)[0] == l[i]);
        }
    }
    assert(find(l, seq!['/', '/']) is None) by {
        if find(l, seq!['/', '/']) is Some {
            let i = find(l, seq!['/', '/'])->Some_0;
            assert(l.subrange(i, i + 2)[0] == l[i]);
        }
    }
    assert(without_comment(l) == l);
    assert(!is_ws(l[0]));
    assert(trim_start(l) == l);
    assert(!is_ws(l.last()));
    assert(trim_end(l) == l);
}

/// While nothing is found, the selection's count of rings and points is
/// that of the line-by-line reading.
proof fn lemma_scan_state_model(ls: Seq<Seq<char>>, dims: nat)
    requires
        dims == 2 || dims == 3,
    ensures
        scan_state(ls, dims) == (model(ls, dims).0.len(), model(ls, dims).1.len(), model(ls, dims).1.len() > 0),
    decreases ls.len(),
{
    if ls.len() > 0 {
        lemma_scan_state_model(ls.drop_last(), dims);
        lemma_sep_line();
    }
}

/// What the selection found is a point line, reached with the target's
/// ring and point counts.
proof fn lemma_found_line(ls: Seq<Seq<char>>, tr: nat, tp: nat, dims: nat)
    ensures
        scan(ls, tr, tp, dims).0 matches Some(l0) ==> {
            &&& l0 < ls.len()
            &&& line_content(ls[l0 as int]).len() > 0
            &&& line_content(ls[l0 as int]) != ring_separator()
            &&& looks_like_point(line_content(ls[l0 as int]), dims)
            &&& scan_state(ls.take(l0 as int), dims).0 == tr
            &&& scan_state(ls.take(l0 as int), dims).1 == tp
        },
    decreases ls.len(),
{
    if ls.len() > 0 {
        let prev = ls.drop_last();
        lemma_found_line(prev, tr, tp, dims);
        lemma_scan_state(prev, tr, tp, dims);
        if scan(prev, tr, tp, dims).0 is Some {
            let l0 = scan(prev, tr, tp, dims).0->Some_0;
            assert(prev.take(l0 as int) =~= ls.take(l0 as int));
            assert(prev[l0 as int] == ls[l0 as int]);
        } else {
            assert(prev =~= ls.take(ls.len() - 1));
        }
    }
}

/// Every ring and point of `a` is in `b`, at the same place.
pub open spec fn extends(a: Seq<Seq<Seq<Seq<char>>>>, b: Seq<Seq<Seq<Seq<char>>>>) -> bool {
    &&& a.len() <= b.len()
    &&& forall|i: int| 0 <= i < a.len() ==> (#[trigger] a[i]).len() <= b[i].len()
    &&& forall|i: int, j: int| 0 <= i < a.len() && 0 <= j < a[i].len() ==> #[trigger] a[i][j] == b[i][j]
}

proof fn lemma_extends_trans(a: Seq<Seq<Seq<Seq<char>>>>, b: Seq<Seq<Seq<Seq<char>>>>, c: Seq<Seq<Seq<Seq<char>>>>)
    requires
        extends(a, b),
        extends(b, c),
    ensures
        extends(a, c),
{
    assert forall|i: int| 0 <= i < a.len() implies (#[trigger] a[i]).len() <= c[i].len() by {
        assert(a[i].len() <= b[i].len());
        assert(b[i].len() <= c[i].len());
    }
    assert forall|i: int, j: int| 0 <= i < a.len() && 0 <= j < a[i].len() implies #[trigger] a[i][j] == c[i][j] by {
        assert(a[i].len() <= b[i].len());
        assert(a[i][j] == b[i][j]);
        assert(b[i][j] == c[i][j]);
    }
}

proof fn lemma_extends_step(ls: Seq<Seq<char>>, dims: nat)
    requires
        ls.len() > 0,
    ensures
        extends(model_rings(ls.drop_last(), dims), model_rings(ls, dims)),
{
    let prev = model(ls.drop_last(), dims);
    let a = model_rings(ls.drop_last(), dims);
    let b = model_rings(ls, dims);
    if is_separator_line(ls.last()) {
        assert(a =~= b);
    } else {
        match point_of_line(ls.last(), dims) {
            Some(pt) => {
                let d = prev.0;
                let c = prev.1;
                assert(b == d.push(c.push(pt)));
                assert forall|i: int| 0 <= i < a.len() implies (#[trigger] a[i]).len() <= b[i].len() by {
                    if i < d.len() {
                        assert(a[i] == d[i]);
                        assert(b[i] == d[i]);
                    }
                }
                assert forall|i: int, j: int| 0 <= i < a.len() && 0 <= j < a[i].len() implies #[trigger] a[i][j] == b[i][j] by {
                    if i < d.len() {
                        assert(a[i] == d[i]);
                        assert(b[i] == d[i]);
                    } else {
                        assert(a[i] == c);
                        assert(b[i] == c.push(pt));
                    }
                }
            },
            None => {
                assert(a =~= b);
            },
        }
    }
}

proof fn lemma_extends_take(ls: Seq<Seq<char>>, m: int, dims: nat)
    requires
        0 <= m <= ls.len(),
    ensures
        extends(model_rings(ls.take(m), dims), model_rings(ls, dims)),
    decreases ls.len(),
{
    if m == ls.len() {
        assert(ls.take(m) =~= ls);
    } else {
        let prev = ls.drop_last();
        assert(prev.take(m) =~= ls.take(m));
        lemma_extends_take(prev, m, dims);
        lemma_extends_step(ls, dims);
        lemma_extends_trans(model_rings(ls.take(m), dims), model_rings(prev, dims), model_rings(ls, dims));
    }
}

/// A point line holds the point of the line-by-line reading at the place
/// its counts reach.
proof fn lemma_point_at_counts(ls: Seq<Seq<char>>, l: int, dims: nat)
    requires
        0 <= l < ls.len(),
        !is_separator_line(ls[l]),
        point_of_line(ls[l], dims) is Some,
    ensures
        ({
            let r = model(ls.take(l), dims).0.len() as int;
            let p = model(ls.take(l), dims).1.len() as int;
            &&& r < model_rings(ls, dims).len()
            &&& p < model_rings(ls, dims)[r].len()
            &&& model_rings(ls, dims)[r][p] == point_of_line(ls[l], dims)->Some_0
        }),
{
    let t = ls.take(l + 1);
    assert(t.drop_last() =~= ls.take(l));
    assert(t.last() == ls[l]);
    let pt = point_of_line(ls[l], dims)->Some_0;
    let d = model(ls.take(l), dims).0;
    let c = model(ls.take(l), dims).1;
    assert(model(t, dims) == (d, c.push(pt)));
    assert(model_rings(t, dims) == d.push(c.push(pt)));
    assert(model_rings(t, dims)[d.len() as int] == c.push(pt));
    lemma_extends_take(ls, l + 1, dims);
    assert(model_rings(t, dims)[d.len() as int][c.len() as int] == pt);
}

/// Each point of the line-by-line reading comes from a point line.
proof fn lemma_line_of_point(ls: Seq<Seq<char>>, dims: nat, r: int, p: int) -> (l: int)
    requires
        0 <= r < model_rings(ls, dims).len(),
        0 <= p < model_rings(ls, dims)[r].len(),
    ensures
        0 <= l < ls.len(),
        !is_separator_line(ls[l]),
        point_of_line(ls[l], dims) is Some,
        model(ls.take(l), dims).0.len() == r,
        model(ls.take(l), dims).1.len() == p,
    decreases ls.len(),
{
    let prev = ls.drop_last();
    let a = model_rings(prev, dims);
    let mp = model(prev, dims);
    lemma_extends_step(ls, dims);
    if r < a.len() && p < a[r].len() {
        let l = lemma_line_of_point(prev, dims, r, p);
        assert(prev.take(l) =~= ls.take(l));
        assert(prev[l] == ls[l]);
        l
    } else {
        // the point read from the last line
        let b = model_rings(ls, dims);
        if is_separator_line(ls.last()) {
            assert(a =~= b);
            assert(false);
        }
        if point_of_line(ls.last(), dims) is None {
            assert(a =~= b);
            assert(false);
        }
        let pt = point_of_line(ls.last(), dims)->Some_0;
        assert(b == mp.0.push(mp.1.push(pt)));
        if r < mp.0.len() {
            assert(a[r] == mp.0[r]);
            assert(b[r] == mp.0[r]);
            assert(false);
        }
        assert(r == mp.0.len());
        if mp.1.len() > 0 {
            assert(a[r] == mp.1);
        }
        assert(p == mp.1.len());
        assert(ls.take(ls.len() - 1) =~= prev);
        ls.len() - 1
    }
}

/// A property of characters holds of every character of `t`.
pub open spec fn all_chars(t: Seq<char>, p: spec_fn(char) -> bool) -> bool {
    forall|i: int| 0 <= i < t.len() ==> p(#[trigger] t[i])
}

/// Every piece of a split is made of characters of the text.
proof fn lemma_split_pieces_chars(s: Seq<char>, pat: Seq<char>, p: spec_fn(char) -> bool)
    requires
        pat.len() > 0,
        all_chars(s, p),
    ensures
        forall|k: int| 0 <= k < split(s, pat).len() ==> all_chars(#[trigger] split(s, pat)[k], p),
    decreases s.len(),
{
    match find(s, pat) {
        None => {},
        Some(i) => {
            lemma_find(s, pat);
            let rest = s.skip(i + pat.len());
            assert(all_chars(rest, p)) by {
                assert forall|j: int| 0 <= j < rest.len() implies p(#[trigger] rest[j]) by {
                    assert(rest[j] == s[j + i + pat.len()]);
                }
            }
            assert(all_chars(s.take(i), p)) by {
                assert forall|j: int| 0 <= j < s.take(i).len() implies p(#[trigger] s.take(i)[j]) by {
                    assert(s.take(i)[j] == s[j]);
                }
            }
            lemma_split_pieces_chars(rest, pat, p);
            assert forall|k: int| 0 <= k < split(s, pat).len() implies all_chars(#[trigger] split(s, pat)[k], p) by {
                if k > 0 {
                    assert(split(s, pat)[k] == split(rest, pat)[k - 1]);
                }
            }
        },
    }
}


/// A line of nothing but whitespace holds nothing.
proof fn lemma_content_ws(x: Seq<char>)
    requires
        all_ws(x),
    ensures
        line_content(x).len() == 0,
{
    lemma_without_comment_prefix(x);
    let w = without_comment(x);
    assert(all_ws(w)) by {
        assert forall|i: int| 0 <= i < w.len() implies is_ws(#[trigger] w[i]) by {
            assert(w[i] == x[i]);
        }
    }
    lemma_trim_start_all_ws(w);
}

proof fn lemma_no_straddle_one(x: Seq<char>, z: Seq<char>, c: char)
    ensures
        no_straddle(x, z, seq![c]),
{
}

proof fn lemma_no_straddle_slashes(x: Seq<char>, z: Seq<char>)
    requires
        x.len() > 0 ==> x.last() != '/',
    ensures
        no_straddle(x, z, seq!['/', '/']),
{
    let slashes = seq!['/', '/'];
    assert forall|p: int| 0 <= p < x.len() && x.len() < p + 2 implies !#[trigger] match_at(x + z, p, slashes) by {
        if match_at(x + z, p, slashes) {
            assert((x + z).subrange(p, p + 2)[0] == (x + z)[p]);
            assert((x + z)[p] == x.last());
        }
    }
}

proof fn lemma_find_ws_none(w: Seq<char>, pat: Seq<char>)
    requires
        all_ws(w),
        pat.len() > 0,
        !is_ws(pat[0]),
    ensures
        find(w, pat) is None,
{
    lemma_find(w, pat);
    if find(w, pat) is Some {
        let i = find(w, pat)->Some_0;
        assert(w.subrange(i, i + pat.len())[0] == w[i]);
    }
}

/// Whitespace in front of a line does not change what it holds.
proof fn lemma_content_ws_prefix(w: Seq<char>, l: Seq<char>)
    requires
        all_ws(w),
    ensures
        line_content(w + l) == line_content(l),
{
    let hash = seq!['#'];
    let slashes = seq!['/', '/'];
    lemma_find_ws_none(w, hash);
    lemma_find_ws_none(w, slashes);
    lemma_no_straddle_one(w, l, '#');
    if w.len() > 0 {
        assert(is_ws(w[w.len() - 1]));
    }
    lemma_no_straddle_slashes(w, l);
    lemma_find_past(w, l, hash);
    lemma_find_past(w, l, slashes);
    assert(without_comment(w + l) =~= w + without_comment(l)) by {
        match find(l, hash) {
            Some(i) => {
                lemma_find(l, hash);
                assert((w + l).take(w.len() + i) =~= w + l.take(i));
            },
            None => match find(l, slashes) {
                Some(i) => {
                    lemma_find(l, slashes);
                    assert((w + l).take(w.len() + i) =~= w + l.take(i));
                },
                None => {},
            },
        }
    }
    lemma_trim_ws_prefix(w, without_comment(l));
}

/// Whitespace after a line does not change what it holds.
proof fn lemma_content_ws_suffix(l: Seq<char>, w: Seq<char>)
    requires
        all_ws(w),
    ensures
        line_content(l + w) == line_content(l),
{
    let hash = seq!['#'];
    let slashes = seq!['/', '/'];
    lemma_find_ws_none(w, hash);
    lemma_find_ws_none(w, slashes);
    lemma_no_straddle_one(l, w, '#');
    assert(no_straddle(l, w, slashes)) by {
        assert forall|p: int| 0 <= p < l.len() && l.len() < p + 2 implies !#[trigger] match_at(l + w, p, slashes) by {
            if match_at(l + w, p, slashes) {
                assert((l + w).subrange(p, p + 2)[1] == (l + w)[p + 1]);
                assert((l + w)[p + 1] == w[0]);
                assert(is_ws(w[0]));
            }
        }
    }
    match find(l, hash) {
        Some(i) => {
            lemma_find(l, hash);
            lemma_find_prefix(l, w, hash, i);
            assert((l + w).take(i) =~= l.take(i));
        },
        None => {
            lemma_find_past(l, w, hash);
            match find(l, slashes) {
                Some(i) => {
                    lemma_find(l, slashes);
                    lemma_find_prefix(l, w, slashes, i);
                    assert((l + w).take(i) =~= l.take(i));
                },
                None => {
                    lemma_find_past(l, w, slashes);
                    lemma_trim_ws_suffix(l, w);
                },
            }
        },
    }
}


proof fn lemma_ws_pieces(w: Seq<char>)
    requires
        all_ws(w),
    ensures
        forall|k: int| 0 <= k < split(w, seq!['\n']).len() ==> all_ws(#[trigger] split(w, seq!['\n'])[k]),
{
    let nl = seq!['\n'];
    let ws = split(w, nl);
    lemma_split_pieces_chars(w, nl, |c: char| is_ws(c));
    assert(all_chars(w, |c: char| is_ws(c))) by {
        assert forall|i: int| 0 <= i < w.len() implies (|c: char| is_ws(c))(#[trigger] w[i]) by {
            assert(is_ws(w[i]));
        }
    }
    assert forall|k: int| 0 <= k < ws.len() implies all_ws(#[trigger] ws[k]) by {
        assert(all_chars(ws[k], |c: char| is_ws(c)));
        assert forall|i: int| 0 <= i < ws[k].len() implies is_ws(#[trigger] ws[k][i]) by {
            assert((|c: char| is_ws(c))(ws[k][i]));
        }
    }
}



proof fn lemma_parsed_rings_one(x: Seq<char>, dims: nat)
    ensures
        parsed_rings(seq![x], dims) == if block_points(lines(x), dims).len() > 0 {
            seq![block_points(lines(x), dims)]
        } else {
            Seq::<Seq<Seq<Seq<char>>>>::empty()
        },
{
    let e = Seq::<Seq<char>>::empty();
    assert(seq![x].drop_last() =~= e);
    assert(seq![x].last() == x);
    assert(parsed_rings(e, dims) == Seq::<Seq<Seq<Seq<char>>>>::empty());
    assert(parsed_rings(seq![x], dims) =~= if block_points(lines(x), dims).len() > 0 {
        seq![block_points(lines(x), dims)]
    } else {
        Seq::<Seq<Seq<Seq<char>>>>::empty()
    });
}


/// A trailing carriage return changes nothing of what a line holds.
proof fn lemma_content_strip_cr(x: Seq<char>)
    ensures
        line_content(strip_cr(x)) == line_content(x),
{
    if x.len() > 0 && x.last() == '\r' {
        let w = seq!['\r'];
        assert(all_ws(w)) by {
            assert forall|i: int| 0 <= i < w.len() implies is_ws(#[trigger] w[i]) by {
                assert(w[i] == '\r');
            }
        }
        assert(x =~= x.drop_last() + w);
        lemma_content_ws_suffix(x.drop_last(), w);
    }
}

/// The points that the contents `cs` of lines hold.
pub open spec fn points_of(cs: Seq<Seq<char>>, dims: nat) -> Seq<Seq<Seq<char>>>
    decreases cs.len(),
{
    if cs.len() == 0 {
        seq![]
    } else {
        points_of(cs.drop_last(), dims) + match point_fields(cs.last(), dims) {
            Some(p) => seq![p],
            None => seq![],
        }
    }
}

/// The points of lines depend on the contents of the lines alone.
proof fn lemma_bp_contents(ls: Seq<Seq<char>>, dims: nat)
    ensures
        block_points(ls, dims) == points_of(contents(ls), dims),
    decreases ls.len(),
{
    if ls.len() > 0 {
        lemma_bp_contents(ls.drop_last(), dims);
        let c = line_content(ls.last());
        let prev = contents(ls.drop_last());
        if c.len() > 0 {
            assert(contents(ls) == prev.push(c));
            assert(prev.push(c).drop_last() =~= prev);
            assert(block_points(ls, dims) =~= points_of(contents(ls), dims));
        } else {
            assert(contents(ls) =~= prev);
            assert(block_points(ls, dims) =~= block_points(ls.drop_last(), dims));
        }
    }
}


/// Point `p` of ring `r`, as the parser reads it, lies on the line that
/// `selected_line` finds.
proof fn lemma_point_is_found(ls: Seq<Seq<char>>, dims: nat, r: nat, p: nat)
    requires
        dims == 2 || dims == 3,
        r < model_rings(ls, dims).len(),
        p < model_rings(ls, dims)[r as int].len(),
    ensures
        scan(ls, r, p, dims).0 is Some,
{
    let l = lemma_line_of_point(ls, dims, r as int, p as int);
    let pre = ls.take(l);
    let t = ls.take(l + 1);
    assert(t.drop_last() =~= pre);
    assert(t.last() == ls[l]);
    lemma_scan_state(pre, r, p, dims);
    lemma_scan_state_model(pre, dims);
    lemma_sep_line();
    let c = line_content(ls[l]);
    assert(c.len() > 0);
    assert(c != ring_separator());
    assert(looks_like_point(c, dims));
    assert(scan(t, r, p, dims).0 is Some);
    lemma_scan_found(ls, l + 1, r, p, dims);
}

/// A picked point selects a line exactly when the parser read that point,
/// and the line it selects holds that point's coordinates: point `p` of ring
/// `r` of `parsed_rings(ring_texts(s), dims)`, the rings that `parse_2d`
/// (`dims` 2) and `parse_3d` (`dims` 3) return.
pub proof fn law_picked_point_selects_its_line(s: Seq<char>, dims: nat, r: nat, p: nat)
    requires
        dims == 2 || dims == 3,
        separators_stand_alone(s),
    ensures
        selected_line(s, r, p, dims) is Some <==> (r < parsed_rings(ring_texts(s), dims).len()
            && p < parsed_rings(ring_texts(s), dims)[r as int].len()),
        selected_line(s, r, p, dims) matches Some(l) ==> {
            &&& l < lines(s).len()
            &&& point_fields(line_content(lines(s)[l as int]), dims) == Some(
                parsed_rings(ring_texts(s), dims)[r as int][p as int],
            )
        },
{
    let ls = lines(s);
    lemma_parse_is_model(s, dims);
    lemma_found_line(ls, r, p, dims);
    if scan(ls, r, p, dims).0 is Some {
        let l = scan(ls, r, p, dims).0->Some_0;
        lemma_scan_state_model(ls.take(l as int), dims);
        lemma_point_at_counts(ls, l as int, dims);
    }
    if r < model_rings(ls, dims).len() && p < model_rings(ls, dims)[r as int].len() {
        lemma_point_is_found(ls, dims, r, p);
    }
}

/// Before the state of the selection reaches point `p > 0` of ring `r`, it
/// passes a point line with point `p - 1` of ring `r`.
proof fn lemma_earlier_point(ls: Seq<Seq<char>>, m: int, dims: nat) -> (k: int)
    requires
        0 <= m <= ls.len(),
        scan_state(ls.take(m), dims).1 > 0,
    ensures
        0 <= k < m,
        scan_state(ls.take(k), dims).0 == scan_state(ls.take(m), dims).0,
        scan_state(ls.take(k), dims).1 + 1 == scan_state(ls.take(m), dims).1,
        line_content(ls[k]).len() > 0,
        line_content(ls[k]) != ring_separator(),
        looks_like_point(line_content(ls[k]), dims),
    decreases m,
{
    let t = ls.take(m);
    if m == 0 {
        assert(t =~= Seq::<Seq<char>>::empty());
        assert(false);
        0
    } else {
        assert(t.drop_last() =~= ls.take(m - 1));
        assert(t.last() == ls[m - 1]);
        let prev = scan_state(ls.take(m - 1), dims);
        let st = line_content(ls[m - 1]);
        if st.len() > 0 && st != ring_separator() && looks_like_point(st, dims) {
            m - 1
        } else {
            assert(scan_state(t, dims) == prev);
            lemma_earlier_point(ls, m - 1, dims)
        }
    }
}

/// The line a picked point selects holds a point, and the point before it
/// in the same ring was found on an earlier line.
pub proof fn law_found_line_is_point_line(s: Seq<char>, dims: nat, r: nat, p: nat)
    ensures
        selected_line(s, r, p, dims) matches Some(l) ==> {
            &&& l < lines(s).len()
            &&& looks_like_point(line_content(lines(s)[l as int]), dims)
            &&& p > 0 ==> (selected_line(s, r, (p - 1) as nat, dims) matches Some(k) && k < l)
        },
{
    let ls = lines(s);
    lemma_found_line(ls, r, p, dims);
    if scan(ls, r, p, dims).0 is Some && p > 0 {
        let l = scan(ls, r, p, dims).0->Some_0;
        let q = (p - 1) as nat;
        let k = lemma_earlier_point(ls, l as int, dims);
        let pre = ls.take(k);
        let t = ls.take(k + 1);
        assert(t.drop_last() =~= pre);
        assert(t.last() == ls[k]);
        lemma_scan_state(pre, r, q, dims);
        assert(ls.take(l as int).take(k) =~= pre);
        assert(scan(t, r, q, dims).0 is Some);
        lemma_found_line(t, r, q, dims);
        lemma_scan_found(ls, k + 1, r, q, dims);
    }
}


/// The rings of each text of `bs`, one text after the other.
pub open spec fn rings_of_each(bs: Seq<Seq<char>>, dims: nat) -> Seq<Seq<Seq<Seq<char>>>>
    decreases bs.len(),
{
    if bs.len() == 0 {
        seq![]
    } else {
        parsed_rings(ring_texts(bs[0]), dims) + rings_of_each(bs.drop_first(), dims)
    }
}

/// The ring texts of each text of `bs`, one text after the other.
pub open spec fn ring_texts_of_each(bs: Seq<Seq<char>>) -> Seq<Seq<char>>
    decreases bs.len(),
{
    if bs.len() == 0 {
        seq![]
    } else {
        ring_texts(bs[0]) + ring_texts_of_each(bs.drop_first())
    }
}

proof fn lemma_tn_concat(a: Seq<Seq<char>>, b: Seq<Seq<char>>)
    ensures
        trimmed_nonempty(a + b) == trimmed_nonempty(a) + trimmed_nonempty(b),
    decreases b.len(),
{
    if b.len() == 0 {
        assert(a + b =~= a);
        assert(trimmed_nonempty(a) + trimmed_nonempty(b) =~= trimmed_nonempty(a));
    } else {
        assert((a + b).drop_last() =~= a + b.drop_last());
        assert((a + b).last() == b.last());
        lemma_tn_concat(a, b.drop_last());
        assert(trimmed_nonempty(a + b) =~= trimmed_nonempty(a) + trimmed_nonempty(b));
    }
}

/// What the lines `ls` hold once comments and surrounding whitespace are
/// gone, lines left with nothing left out.
pub open spec fn contents(ls: Seq<Seq<char>>) -> Seq<Seq<char>>
    decreases ls.len(),
{
    if ls.len() == 0 {
        seq![]
    } else {
        contents(ls.drop_last()) + if line_content(ls.last()).len() > 0 {
            seq![line_content(ls.last())]
        } else {
            seq![]
        }
    }
}

/// The line-by-line reading, over the contents of the lines.
pub open spec fn content_model(cs: Seq<Seq<char>>, dims: nat) -> (Seq<Seq<Seq<Seq<char>>>>, Seq<Seq<Seq<char>>>)
    decreases cs.len(),
{
    if cs.len() == 0 {
        (seq![], seq![])
    } else {
        let prev = content_model(cs.drop_last(), dims);
        if cs.last() == ring_separator() {
            if prev.1.len() > 0 {
                (prev.0.push(prev.1), seq![])
            } else {
                (prev.0, seq![])
            }
        } else {
            match point_fields(cs.last(), dims) {
                Some(pt) => (prev.0, prev.1.push(pt)),
                None => prev,
            }
        }
    }
}

/// The line-by-line reading depends on the contents of the lines alone.
proof fn lemma_model_contents(ls: Seq<Seq<char>>, dims: nat)
    ensures
        model(ls, dims) == content_model(contents(ls), dims),
    decreases ls.len(),
{
    if ls.len() > 0 {
        lemma_model_contents(ls.drop_last(), dims);
        let c = line_content(ls.last());
        let prev = contents(ls.drop_last());
        if c.len() > 0 {
            assert(contents(ls) == prev.push(c));
            assert(prev.push(c).drop_last() =~= prev);
        } else {
            assert(contents(ls) =~= prev);
            assert(c != ring_separator());
        }
    }
}

proof fn lemma_cs_concat(a: Seq<Seq<char>>, b: Seq<Seq<char>>)
    ensures
        contents(a + b) == contents(a) + contents(b),
    decreases b.len(),
{
    if b.len() == 0 {
        assert(a + b =~= a);
        assert(contents(a) + contents(b) =~= contents(a));
    } else {
        assert((a + b).drop_last() =~= a + b.drop_last());
        assert((a + b).last() == b.last());
        lemma_cs_concat(a, b.drop_last());
        assert(contents(a + b) =~= contents(a) + contents(b));
    }
}

proof fn lemma_cs_one(x: Seq<char>)
    ensures
        contents(seq![x]) == if line_content(x).len() > 0 {
            seq![line_content(x)]
        } else {
            Seq::<Seq<char>>::empty()
        },
{
    let e = Seq::<Seq<char>>::empty();
    assert(seq![x].drop_last() =~= e);
    assert(seq![x].last() == x);
    assert(contents(e) == e);
    assert(contents(seq![x]) =~= if line_content(x).len() > 0 {
        seq![line_content(x)]
    } else {
        e
    });
}

proof fn lemma_cs_blank(ls: Seq<Seq<char>>)
    requires
        forall|k: int| 0 <= k < ls.len() ==> all_ws(#[trigger] ls[k]),
    ensures
        contents(ls).len() == 0,
    decreases ls.len(),
{
    if ls.len() > 0 {
        assert(all_ws(ls[ls.len() - 1]));
        lemma_content_ws(ls.last());
        lemma_cs_blank(ls.drop_last());
    }
}

/// Whitespace in front of a text does not change the contents of its lines.
proof fn lemma_cs_ws_prefix(w: Seq<char>, t: Seq<char>)
    requires
        all_ws(w),
    ensures
        contents(split(w + t, seq!['\n'])) == contents(split(t, seq!['\n'])),
{
    let nl = seq!['\n'];
    lemma_no_straddle_one(w, t, '\n');
    lemma_split_concat(w, t, nl);
    lemma_split_nonempty(w, nl);
    lemma_split_nonempty(t, nl);
    let ws = split(w, nl);
    let ts = split(t, nl);
    lemma_ws_pieces(w);
    assert forall|k: int| 0 <= k < ws.drop_last().len() implies all_ws(#[trigger] ws.drop_last()[k]) by {
        assert(ws.drop_last()[k] == ws[k]);
    }
    lemma_cs_blank(ws.drop_last());
    assert(all_ws(ws[ws.len() - 1]));
    lemma_content_ws_prefix(ws.last(), ts[0]);
    lemma_cs_one(ws.last() + ts[0]);
    lemma_cs_one(ts[0]);
    let left = ws.drop_last();
    let mid = seq![ws.last() + ts[0]];
    let right = ts.drop_first();
    assert(split(w + t, nl) == left + mid + right);
    lemma_cs_concat(left + mid, right);
    lemma_cs_concat(left, mid);
    assert(ts =~= seq![ts[0]] + right);
    lemma_cs_concat(seq![ts[0]], right);
    assert(contents(left) =~= Seq::<Seq<char>>::empty());
}

/// Whitespace after a text does not change the contents of its lines.
proof fn lemma_cs_ws_suffix(t: Seq<char>, w: Seq<char>)
    requires
        all_ws(w),
    ensures
        contents(split(t + w, seq!['\n'])) == contents(split(t, seq!['\n'])),
{
    let nl = seq!['\n'];
    lemma_no_straddle_one(t, w, '\n');
    lemma_split_concat(t, w, nl);
    lemma_split_nonempty(w, nl);
    lemma_split_nonempty(t, nl);
    let ws = split(w, nl);
    let ts = split(t, nl);
    lemma_ws_pieces(w);
    assert(all_ws(ws[0]));
    let rest = ws.drop_first();
    assert forall|k: int| 0 <= k < rest.len() implies all_ws(#[trigger] rest[k]) by {
        assert(rest[k] == ws[k + 1]);
    }
    lemma_cs_blank(rest);
    lemma_content_ws_suffix(ts.last(), ws[0]);
    lemma_cs_one(ts.last() + ws[0]);
    lemma_cs_one(ts.last());
    let left = ts.drop_last();
    let mid = seq![ts.last() + ws[0]];
    assert(split(t + w, nl) == left + mid + rest);
    lemma_cs_concat(left + mid, rest);
    lemma_cs_concat(left, mid);
    assert(ts =~= left + seq![ts.last()]);
    lemma_cs_concat(left, seq![ts.last()]);
    assert(contents(rest) =~= Seq::<Seq<char>>::empty());
}

proof fn lemma_cs_trim_start(t: Seq<char>)
    ensures
        contents(split(trim_start(t), seq!['\n'])) == contents(split(t, seq!['\n'])),
    decreases t.len(),
{
    if t.len() > 0 && is_ws(t[0]) {
        let w = seq![t[0]];
        assert(t =~= w + t.drop_first());
        lemma_cs_ws_prefix(w, t.drop_first());
        lemma_cs_trim_start(t.drop_first());
    }
}

proof fn lemma_cs_trim_end(t: Seq<char>)
    ensures
        contents(split(trim_end(t), seq!['\n'])) == contents(split(t, seq!['\n'])),
    decreases t.len(),
{
    if t.len() > 0 && is_ws(t.last()) {
        let w = seq![t.last()];
        assert(t =~= t.drop_last() + w);
        lemma_cs_ws_suffix(t.drop_last(), w);
        lemma_cs_trim_end(t.drop_last());
    }
}

/// The lines of a text hold what its pieces between line feeds hold.
proof fn lemma_cs_lines_split(u: Seq<char>)
    ensures
        contents(lines(u)) == contents(split(u, seq!['\n'])),
    decreases u.len(),
{
    let nl = seq!['\n'];
    if u.len() == 0 {
        assert(split(u, nl) == seq![u]);
        lemma_content_ws(u);
        lemma_cs_one(u);
        assert(lines(u) =~= Seq::<Seq<char>>::empty());
    } else {
        lemma_find(u, nl);
        match find(u, nl) {
            None => {},
            Some(i) => {
                let x = u.take(i);
                let rest = u.skip(i + 1);
                lemma_cs_lines_split(rest);
                assert(lines(u) == seq![strip_cr(x)] + lines(rest));
                assert(split(u, nl) == seq![x] + split(rest, nl));
                lemma_cs_concat(seq![strip_cr(x)], lines(rest));
                lemma_cs_concat(seq![x], split(rest, nl));
                lemma_content_strip_cr(x);
                lemma_cs_one(x);
                lemma_cs_one(strip_cr(x));
            },
        }
    }
}

/// The pieces of a split at `c` hold no `c`.
proof fn lemma_split_pieces_avoid(s: Seq<char>, c: char)
    ensures
        forall|k: int| 0 <= k < split(s, seq![c]).len() ==> avoids(#[trigger] split(s, seq![c])[k], c),
    decreases s.len(),
{
    let pat = seq![c];
    match find(s, pat) {
        None => {
            lemma_find(s, pat);
            assert(split(s, pat) == seq![s]);
            assert forall|j: int| 0 <= j < s.len() implies #[trigger] s[j] != c by {
                assert(!match_at(s, j, pat));
                assert(s.subrange(j, j + 1) =~= seq![s[j]]);
            }
        },
        Some(i) => {
            lemma_find(s, pat);
            let rest = s.skip(i + 1);
            assert(avoids(s.take(i), c)) by {
                assert forall|j: int| 0 <= j < i implies #[trigger] s.take(i)[j] != c by {
                    assert(!match_at(s, j, pat));
                    assert(s.subrange(j, j + 1) =~= seq![s[j]]);
                }
            }
            lemma_split_pieces_avoid(rest, c);
            assert forall|k: int| 0 <= k < split(s, pat).len() implies avoids(#[trigger] split(s, pat)[k], c) by {
                if k > 0 {
                    assert(split(s, pat)[k] == split(rest, pat)[k - 1]);
                }
            }
        },
    }
}


/// Every separator that stands before the comment of a line of `s` (the
/// lines taken between line feeds) stands alone on a separator line.
pub open spec fn separators_stand_alone(s: Seq<char>) -> bool {
    forall|k: int|
        0 <= k < split(s, seq!['\n']).len() ==> (find(
            without_comment(#[trigger] split(s, seq!['\n'])[k]),
            ring_separator(),
        ) is Some ==> is_separator_line(split(s, seq!['\n'])[k]))
}

/// The points of a piece of text: those of its lines.
pub open spec fn piece_points(p: Seq<char>, dims: nat) -> Seq<Seq<Seq<char>>> {
    points_of(contents(split(p, seq!['\n'])), dims)
}

/// The rings of pieces of text: the points of each piece, pieces without a
/// point left out.
pub open spec fn piece_rings(ps: Seq<Seq<char>>, dims: nat) -> Seq<Seq<Seq<Seq<char>>>>
    decreases ps.len(),
{
    if ps.len() == 0 {
        seq![]
    } else {
        let pts = piece_points(ps.last(), dims);
        piece_rings(ps.drop_last(), dims) + if pts.len() > 0 {
            seq![pts]
        } else {
            seq![]
        }
    }
}

/// The parser reads the points of a piece from its trimmed lines.
proof fn lemma_piece_points(p: Seq<char>, dims: nat)
    ensures
        block_points(lines(trim(p)), dims) == piece_points(p, dims),
{
    lemma_bp_contents(lines(trim(p)), dims);
    lemma_cs_lines_split(trim(p));
    lemma_cs_trim_start(p);
    lemma_cs_trim_end(trim_start(p));
}

/// The parser's rings of the trimmed pieces are the rings of the pieces.
proof fn lemma_tn_rings(ps: Seq<Seq<char>>, dims: nat)
    ensures
        parsed_rings(trimmed_nonempty(ps), dims) == piece_rings(ps, dims),
    decreases ps.len(),
{
    if ps.len() > 0 {
        let prev = ps.drop_last();
        let x = ps.last();
        lemma_tn_rings(prev, dims);
        let part = if trim(x).len() > 0 {
            seq![trim(x)]
        } else {
            Seq::<Seq<char>>::empty()
        };
        assert(trimmed_nonempty(ps) == trimmed_nonempty(prev) + part);
        lemma_parsed_rings_concat(trimmed_nonempty(prev), part, dims);
        lemma_piece_points(x, dims);
        if trim(x).len() > 0 {
            lemma_parsed_rings_one(trim(x), dims);
        } else {
            let e = Seq::<char>::empty();
            assert(trim(x) =~= e);
            assert(lines(e) =~= Seq::<Seq<char>>::empty());
            assert(block_points(Seq::<Seq<char>>::empty(), dims) == Seq::<Seq<Seq<char>>>::empty());
            assert(parsed_rings(part, dims) =~= Seq::<Seq<Seq<Seq<char>>>>::empty());
        }
    }
}

proof fn lemma_po_concat(a: Seq<Seq<char>>, b: Seq<Seq<char>>, dims: nat)
    ensures
        points_of(a + b, dims) == points_of(a, dims) + points_of(b, dims),
    decreases b.len(),
{
    if b.len() == 0 {
        assert(a + b =~= a);
        assert(points_of(a, dims) + points_of(b, dims) =~= points_of(a, dims));
    } else {
        assert((a + b).drop_last() =~= a + b.drop_last());
        assert((a + b).last() == b.last());
        lemma_po_concat(a, b.drop_last(), dims);
        assert(points_of(a + b, dims) =~= points_of(a, dims) + points_of(b, dims));
    }
}

/// A text without line feeds is one piece.
proof fn lemma_split_avoiding(x: Seq<char>)
    requires
        avoids(x, '\n'),
    ensures
        split(x, seq!['\n']) == seq![x],
{
    let nl = seq!['\n'];
    lemma_find(x, nl);
    if find(x, nl) is Some {
        let i = find(x, nl)->Some_0;
        assert(x.subrange(i, i + 1)[0] == x[i]);
    }
}

/// Splitting at line feeds across one line feed splits both sides.
proof fn lemma_split_nl_concat(a: Seq<char>, b: Seq<char>)
    ensures
        split(a + seq!['\n'] + b, seq!['\n']) == split(a, seq!['\n']) + split(b, seq!['\n']),
{
    let nl = seq!['\n'];
    let y = nl + b;
    assert(a + nl + b =~= a + y);
    lemma_no_straddle_one(a, y, '\n');
    lemma_split_concat(a, y, nl);
    assert(y.take(1) =~= nl);
    assert(find(y, nl) == Some(0int));
    assert(y.skip(1) =~= b);
    assert(y.take(0) =~= Seq::<char>::empty());
    assert(split(y, nl) == seq![y.take(0)] + split(b, nl));
    lemma_split_nonempty(a, nl);
    let sa = split(a, nl);
    assert(sa =~= sa.drop_last() + seq![sa.last()]);
    assert(sa.last() + y.take(0) =~= sa.last());
    assert(split(a + y, nl) =~= sa + split(b, nl));
}

/// The points of a piece continued by a line feed and one more line.
proof fn lemma_pp_append(l: Seq<char>, y: Seq<char>, dims: nat)
    requires
        avoids(y, '\n'),
    ensures
        piece_points(l + seq!['\n'] + y, dims) == piece_points(l, dims) + points_of(contents(seq![y]), dims),
        piece_points(y, dims) == points_of(contents(seq![y]), dims),
{
    lemma_split_nl_concat(l, y);
    lemma_split_avoiding(y);
    lemma_cs_concat(split(l, seq!['\n']), seq![y]);
    lemma_po_concat(contents(split(l, seq!['\n'])), contents(seq![y]), dims);
}

/// Where `trim` cuts a text: the whitespace before and after its result.
pub(crate) proof fn lemma_trim_bounds(w: Seq<char>) -> (i: int)
    ensures
        0 <= i <= i + trim(w).len() <= w.len(),
        trim(w) == w.subrange(i, i + trim(w).len()),
        forall|j: int| 0 <= j < i ==> is_ws(#[trigger] w[j]),
        forall|j: int| i + trim(w).len() <= j < w.len() ==> is_ws(#[trigger] w[j]),
{
    let i = lemma_trim_start_skip(w);
    let u = w.skip(i);
    let m = lemma_trim_end_take(u);
    assert(trim(w) == u.take(m));
    assert(u.take(m) =~= w.subrange(i, i + m));
    assert forall|j: int| i + m <= j < w.len() implies is_ws(#[trigger] w[j]) by {
        assert(w[j] == u[j - i]);
    }
    i
}

proof fn lemma_trim_start_skip(s: Seq<char>) -> (i: int)
    ensures
        0 <= i <= s.len(),
        trim_start(s) == s.skip(i),
        forall|j: int| 0 <= j < i ==> is_ws(#[trigger] s[j]),
    decreases s.len(),
{
    if s.len() > 0 && is_ws(s[0]) {
        let t = s.drop_first();
        let k = lemma_trim_start_skip(t);
        assert(t.skip(k) =~= s.skip(k + 1));
        assert forall|j: int| 0 <= j < k + 1 implies is_ws(#[trigger] s[j]) by {
            if j > 0 {
                assert(s[j] == t[j - 1]);
            }
        }
        k + 1
    } else {
        assert(s.skip(0) =~= s);
        0
    }
}

proof fn lemma_trim_end_take(s: Seq<char>) -> (m: int)
    ensures
        0 <= m <= s.len(),
        trim_end(s) == s.take(m),
        forall|j: int| m <= j < s.len() ==> is_ws(#[trigger] s[j]),
    decreases s.len(),
{
    if s.len() > 0 && is_ws(s.last()) {
        let t = s.drop_last();
        let m = lemma_trim_end_take(t);
        assert(t.take(m) =~= s.take(m));
        assert forall|j: int| m <= j < s.len() implies is_ws(#[trigger] s[j]) by {
            if j < t.len() {
                assert(s[j] == t[j]);
            }
        }
        m
    } else {
        assert(s.take(s.len() as int) =~= s);
        s.len() as int
    }
}

/// `find` in a text with a prefix cut off, when the first occurrence is not
/// in that prefix.
proof fn lemma_find_skip(x: Seq<char>, pat: Seq<char>, m: int)
    requires
        pat.len() > 0,
        0 <= m <= x.len(),
        find(x, pat) matches Some(c) ==> m <= c,
    ensures
        find(x.skip(m), pat) == match find(x, pat) {
            Some(c) => Some(c - m),
            None => None::<int>,
        },
{
    let y = x.skip(m);
    lemma_find(x, pat);
    lemma_find(y, pat);
    assert forall|j: int| 0 <= j implies #[trigger] match_at(y, j, pat) == match_at(x, j + m, pat) by {
        if j + pat.len() <= y.len() {
            assert(y.subrange(j, j + pat.len()) =~= x.subrange(j + m, j + m + pat.len()));
        }
    }
    match find(x, pat) {
        Some(c) => {
            assert(match_at(y, c - m, pat));
            assert forall|j: int| 0 <= j < c - m implies !#[trigger] match_at(y, j, pat) by {
                assert(match_at(y, j, pat) == match_at(x, j + m, pat));
            }
            lemma_find_is(y, pat, c - m);
        },
        None => {
            if find(y, pat) is Some {
                let j = find(y, pat)->Some_0;
                assert(match_at(y, j, pat) == match_at(x, j + m, pat));
            }
        },
    }
}

/// Cutting a line off before its comment and then cutting `m` characters
/// off its start is cutting the start off first.
proof fn lemma_without_comment_skip(x: Seq<char>, m: int)
    requires
        0 <= m <= without_comment(x).len(),
    ensures
        without_comment(x.skip(m)) == without_comment(x).skip(m),
{
    let hash = seq!['#'];
    let slashes = seq!['/', '/'];
    lemma_without_comment_prefix(x);
    lemma_find(x, hash);
    lemma_find(x, slashes);
    match find(x, hash) {
        Some(c) => {
            assert(without_comment(x) == x.take(c));
            lemma_find_skip(x, hash, m);
            assert(x.skip(m).take(c - m) =~= x.take(c).skip(m));
        },
        None => {
            lemma_find_skip(x, hash, m);
            match find(x, slashes) {
                Some(c) => {
                    assert(without_comment(x) == x.take(c));
                    lemma_find_skip(x, slashes, m);
                    assert(x.skip(m).take(c - m) =~= x.take(c).skip(m));
                },
                None => {
                    lemma_find_skip(x, slashes, m);
                },
            }
        },
    }
}

/// A line with no separator before its comment is one piece and no
/// separator line.
proof fn lemma_line_without_separator(x: Seq<char>)
    requires
        find(without_comment(x), ring_separator()) is None,
    ensures
        line_parts(x) == seq![x],
        !is_separator_line(x),
{
    let w = without_comment(x);
    let sep = ring_separator();
    lemma_without_comment_prefix(x);
    assert(split(w, sep) == seq![w]);
    assert(w + x.skip(w.len() as int) =~= x);
    assert(seq![w].drop_last() =~= Seq::<Seq<char>>::empty());
    assert(line_parts(x) =~= seq![x]);
    if trim(w) == sep {
        let i = lemma_trim_bounds(w);
        lemma_find(w, sep);
        assert(match_at(w, i, sep));
    }
}

/// A separator line is cut into the whitespace before the separator and the
/// rest of the line, which holds nothing.
proof fn lemma_separator_line_parts(x: Seq<char>) -> (i: int)
    requires
        is_separator_line(x),
    ensures
        0 <= i,
        i + 15 <= x.len(),
        line_parts(x) == seq![x.take(i), x.skip(i + 15)],
        all_ws(x.take(i)),
        line_content(x.skip(i + 15)).len() == 0,
{
    let w = without_comment(x);
    let sep = ring_separator();
    lemma_without_comment_prefix(x);
    let i = lemma_trim_bounds(w);
    assert(trim(w) == sep);
    let ws2 = w.skip(i + 15);
    // the first separator in `w` is the one after the leading whitespace
    assert(match_at(w, i, sep));
    assert forall|j: int| 0 <= j < i implies !#[trigger] match_at(w, j, sep) by {
        if match_at(w, j, sep) {
            assert(w.subrange(j, j + 15)[0] == w[j]);
            assert(is_ws(w[j]));
        }
    }
    lemma_find_is(w, sep, i);
    assert(all_ws(ws2)) by {
        assert forall|j: int| 0 <= j < ws2.len() implies is_ws(#[trigger] ws2[j]) by {
            assert(ws2[j] == w[j + i + 15]);
        }
    }
    lemma_find_ws_none(ws2, sep);
    assert(split(ws2, sep) == seq![ws2]);
    assert(w.skip(i + sep.len()) == ws2);
    assert(split(w, sep) == seq![w.take(i)] + split(ws2, sep));
    let dead = x.skip(w.len() as int);
    assert(w.take(i) =~= x.take(i));
    assert(ws2 + dead =~= x.skip(i + 15));
    assert(line_parts(x) =~= seq![x.take(i), x.skip(i + 15)]);
    assert(all_ws(x.take(i))) by {
        assert forall|j: int| 0 <= j < i implies is_ws(#[trigger] x.take(i)[j]) by {
            assert(x.take(i)[j] == w[j]);
        }
    }
    lemma_without_comment_skip(x, i + 15);
    assert(without_comment(x.skip(i + 15)) == ws2);
    lemma_trim_start_all_ws(ws2);
    i
}

proof fn lemma_avoids_sub(x: Seq<char>, a: int, b: int)
    requires
        avoids(x, '\n'),
        0 <= a <= b <= x.len(),
    ensures
        avoids(x.subrange(a, b), '\n'),
{
    assert forall|j: int| 0 <= j < b - a implies #[trigger] x.subrange(a, b)[j] != '\n' by {
        assert(x.subrange(a, b)[j] == x[a + j]);
    }
}

/// When every separator stands alone on its line, reading the lines one by
/// one gives the rings of the pieces the text is cut into.
proof fn lemma_cut_model(xs: Seq<Seq<char>>, dims: nat)
    requires
        forall|k: int| 0 <= k < xs.len() ==> avoids(#[trigger] xs[k], '\n'),
        forall|k: int|
            0 <= k < xs.len() ==> (find(without_comment(#[trigger] xs[k]), ring_separator()) is Some
                ==> is_separator_line(xs[k])),
    ensures
        content_model(contents(xs), dims) == (piece_rings(cut_pieces(xs).drop_last(), dims), piece_points(
            cut_pieces(xs).last(),
            dims,
        )),
    decreases xs.len(),
{
    let nl = seq!['\n'];
    let e = Seq::<char>::empty();
    let es = Seq::<Seq<char>>::empty();
    lemma_content_ws(e);
    lemma_cs_one(e);
    assert(split(e, nl) == seq![e]);
    assert(points_of(es, dims) == Seq::<Seq<Seq<char>>>::empty());
    if xs.len() == 0 {
        assert(cut_pieces(xs) == seq![e]);
        assert(cut_pieces(xs).drop_last() =~= es);
        assert(contents(xs) == es);
    } else {
        let prev = xs.drop_last();
        let x = xs.last();
        assert forall|k: int| 0 <= k < prev.len() implies avoids(#[trigger] prev[k], '\n') by {
            assert(prev[k] == xs[k]);
        }
        assert forall|k: int| 0 <= k < prev.len() implies (find(without_comment(#[trigger] prev[k]), ring_separator()) is Some
                ==> is_separator_line(prev[k])) by {
            assert(prev[k] == xs[k]);
        }
        lemma_cut_model(prev, dims);
        lemma_cut_pieces_nonempty(prev);
        assert(avoids(xs[xs.len() - 1], '\n'));
        assert(x == xs[xs.len() - 1]);
        let g = cut_pieces(prev);
        let l = g.last();
        let cm = content_model(contents(prev), dims);
        assert(xs =~= prev + seq![x]);
        lemma_cs_concat(prev, seq![x]);
        lemma_cs_one(x);
        if prev.len() == 0 {
            assert(g == seq![e]);
            assert(l == e);
            assert(piece_points(e, dims) == Seq::<Seq<Seq<char>>>::empty());
        }
        if find(without_comment(x), ring_separator()) is None {
            lemma_line_without_separator(x);
            let first = if prev.len() == 0 { x } else { l + nl + x };
            assert(cut_pieces(xs) == g.drop_last() + seq![first] + seq![x].drop_first());
            assert(cut_pieces(xs) =~= g.drop_last() + seq![first]);
            assert(cut_pieces(xs).drop_last() =~= g.drop_last());
            lemma_pp_append(l, x, dims);
            assert(piece_points(first, dims) =~= piece_points(l, dims) + points_of(contents(seq![x]), dims));
            let c = line_content(x);
            if c.len() > 0 {
                assert(contents(xs) == contents(prev).push(c));
                assert(contents(prev).push(c).drop_last() =~= contents(prev));
                assert(seq![c].drop_last() =~= es);
                assert(points_of(seq![c], dims) =~= match point_fields(c, dims) {
                    Some(p) => seq![p],
                    None => Seq::<Seq<Seq<char>>>::empty(),
                });
            } else {
                assert(contents(xs) =~= contents(prev));
            }
        } else {
            let i = lemma_separator_line_parts(x);
            let pre = x.take(i);
            let post = x.skip(i + 15);
            lemma_avoids_sub(x, 0, i);
            lemma_avoids_sub(x, i + 15, x.len() as int);
            assert(pre =~= x.subrange(0, i));
            assert(post =~= x.subrange(i + 15, x.len() as int));
            let first = if prev.len() == 0 { pre } else { l + nl + pre };
            assert(cut_pieces(xs) == g.drop_last() + seq![first] + seq![pre, post].drop_first());
            assert(cut_pieces(xs) =~= g.drop_last().push(first).push(post));
            assert(cut_pieces(xs).drop_last() =~= g.drop_last().push(first));
            assert(cut_pieces(xs).last() == post);
            lemma_pp_append(l, pre, dims);
            lemma_pp_append(l, post, dims);
            lemma_content_ws(pre);
            lemma_cs_one(pre);
            lemma_cs_one(post);
            assert(piece_points(first, dims) =~= piece_points(l, dims));
            assert(piece_points(post, dims) =~= Seq::<Seq<Seq<char>>>::empty());
            let sep = ring_separator();
            lemma_sep_line();
            assert(contents(xs) == contents(prev).push(sep));
            assert(contents(prev).push(sep).drop_last() =~= contents(prev));
            let gd = g.drop_last().push(first);
            assert(gd.drop_last() =~= g.drop_last());
            assert(gd.last() == first);
            let pl = piece_points(l, dims);
            if pl.len() > 0 {
                assert(piece_rings(gd, dims) =~= piece_rings(g.drop_last(), dims).push(pl));
            } else {
                assert(piece_rings(gd, dims) =~= piece_rings(g.drop_last(), dims));
            }
        }
    }
}

/// When every separator stands alone on its line, the parser reads the rings
/// that reading the lines one by one gives.
proof fn lemma_parse_is_model(s: Seq<char>, dims: nat)
    requires
        separators_stand_alone(s),
    ensures
        parsed_rings(ring_texts(s), dims) == model_rings(lines(s), dims),
{
    let xs = split(s, seq!['\n']);
    lemma_split_pieces_avoid(s, '\n');
    lemma_cut_model(xs, dims);
    lemma_tn_rings(cut_pieces(xs), dims);
    lemma_model_contents(lines(s), dims);
    lemma_cs_lines_split(s);
    lemma_cut_pieces_nonempty(xs);
    let g = cut_pieces(xs);
    let pts = piece_points(g.last(), dims);
    if pts.len() > 0 {
        assert(piece_rings(g, dims) =~= piece_rings(g.drop_last(), dims).push(pts));
    } else {
        assert(piece_rings(g, dims) =~= piece_rings(g.drop_last(), dims));
    }
}


/// The separator line is cut into two empty pieces.
proof fn lemma_line_parts_sep()
    ensures
        line_parts(ring_separator()) == seq![Seq::<char>::empty(), Seq::<char>::empty()],
{
    let sep = ring_separator();
    let e = Seq::<char>::empty();
    lemma_sep_line();
    assert(sep.take(15) =~= sep);
    assert(find(sep, sep) == Some(0int));
    assert(sep.skip(15) =~= e);
    assert(split(e, sep) == seq![e]);
    assert(split(sep, sep) == seq![sep.take(0)] + split(e, sep));
    assert(sep.take(0) =~= e);
    assert(line_parts(sep) =~= seq![e, e]);
}

/// The pieces of lines `c` followed by lines `b`: the last piece of `c` and
/// the first of `b` are one piece, joined by a line feed.
proof fn lemma_cut_concat(c: Seq<Seq<char>>, b: Seq<Seq<char>>)
    requires
        c.len() > 0,
        b.len() > 0,
    ensures
        cut_pieces(c + b) == cut_pieces(c).drop_last() + seq![cut_pieces(c).last() + seq!['\n'] + cut_pieces(b)[0]]
            + cut_pieces(b).drop_first(),
    decreases b.len(),
{
    let nl = seq!['\n'];
    let g = cut_pieces(c);
    let x = b.last();
    let lp = line_parts(x);
    lemma_line_parts_nonempty(x);
    lemma_cut_pieces_nonempty(c);
    assert((c + b).drop_last() =~= c + b.drop_last());
    assert((c + b).last() == x);
    if b.len() == 1 {
        assert(c + b.drop_last() =~= c);
        assert(b.drop_last() =~= Seq::<Seq<char>>::empty());
        let e1 = seq![Seq::<char>::empty()];
        assert(cut_pieces(b.drop_last()) == e1);
        assert(cut_pieces(b) == e1.drop_last() + seq![lp[0]] + lp.drop_first());
        assert(cut_pieces(b) =~= lp);
    } else {
        let b1 = b.drop_last();
        lemma_cut_concat(c, b1);
        lemma_cut_pieces_nonempty(b1);
        let bb = cut_pieces(b1);
        let h = cut_pieces(c + b1);
        assert(cut_pieces(c + b) == h.drop_last() + seq![h.last() + nl + lp[0]] + lp.drop_first());
        assert(cut_pieces(b) == bb.drop_last() + seq![bb.last() + nl + lp[0]] + lp.drop_first());
        if bb.len() == 1 {
            assert(h =~= g.drop_last() + seq![g.last() + nl + bb[0]]);
            assert(h.drop_last() =~= g.drop_last());
            assert(h.last() == g.last() + nl + bb[0]);
            assert(cut_pieces(b) =~= seq![bb[0] + nl + lp[0]] + lp.drop_first());
            assert(g.last() + nl + bb[0] + nl + lp[0] =~= g.last() + nl + (bb[0] + nl + lp[0]));
            assert(cut_pieces(c + b) =~= g.drop_last() + seq![g.last() + nl + cut_pieces(b)[0]]
                + cut_pieces(b).drop_first());
        } else {
            assert(h.last() == bb.last());
            assert(h.drop_last() =~= g.drop_last() + seq![g.last() + nl + bb[0]] + bb.drop_first().drop_last());
            assert(cut_pieces(b)[0] == bb[0]);
            assert(cut_pieces(b).drop_first() =~= bb.drop_first().drop_last() + seq![bb.last() + nl + lp[0]]
                + lp.drop_first());
            assert(cut_pieces(c + b) =~= g.drop_last() + seq![g.last() + nl + cut_pieces(b)[0]]
                + cut_pieces(b).drop_first());
        }
    }
}

/// The pieces of a text joined to another by a separator line: those of the
/// first and those of the second, the joint's line feeds kept at the ends.
proof fn lemma_cut_join(a: Seq<char>, b: Seq<char>)
    ensures
        ({
            let ga = cut_pieces(split(a, seq!['\n']));
            let gb = cut_pieces(split(b, seq!['\n']));
            &&& ga.len() > 0
            &&& gb.len() > 0
            &&& cut_pieces(split(a + merge_joint() + b, seq!['\n'])) == ga.drop_last() + seq![ga.last() + seq!['\n']]
                + seq![seq!['\n'] + gb[0]] + gb.drop_first()
        }),
{
    let nl = seq!['\n'];
    let sep = ring_separator();
    let e = Seq::<char>::empty();
    let sa = split(a, nl);
    let sb = split(b, nl);
    assert(a + merge_joint() + b =~= a + nl + (sep + nl + b));
    lemma_split_nl_concat(a, sep + nl + b);
    lemma_split_nl_concat(sep, b);
    assert(avoids(sep, '\n'));
    lemma_split_avoiding(sep);
    let xs = sa + seq![sep] + sb;
    assert(split(a + merge_joint() + b, nl) =~= xs);
    lemma_split_nonempty(a, nl);
    lemma_split_nonempty(b, nl);
    lemma_cut_pieces_nonempty(sa);
    lemma_cut_pieces_nonempty(sb);
    let ga = cut_pieces(sa);
    let gb = cut_pieces(sb);
    lemma_line_parts_sep();
    let c = sa + seq![sep];
    assert(c.drop_last() =~= sa);
    assert(c.last() == sep);
    assert(cut_pieces(c) == ga.drop_last() + seq![ga.last() + nl + e] + seq![e, e].drop_first());
    assert(cut_pieces(c) =~= ga.drop_last().push(ga.last() + nl).push(e));
    lemma_cut_concat(c, sb);
    assert(c + sb =~= xs);
    assert(cut_pieces(c).drop_last() =~= ga.drop_last().push(ga.last() + nl));
    assert(e + nl + gb[0] =~= nl + gb[0]);
    assert(cut_pieces(xs) =~= ga.drop_last() + seq![ga.last() + nl] + seq![nl + gb[0]] + gb.drop_first());
}

/// Trimming drops the line feeds at a joint.
proof fn lemma_tn_joint(ga: Seq<Seq<char>>, gb: Seq<Seq<char>>)
    requires
        ga.len() > 0,
        gb.len() > 0,
    ensures
        trimmed_nonempty(ga.drop_last() + seq![ga.last() + seq!['\n']] + seq![seq!['\n'] + gb[0]] + gb.drop_first())
            == trimmed_nonempty(ga) + trimmed_nonempty(gb),
{
    let nl = seq!['\n'];
    let u = ga.last();
    let v = gb[0];
    let left = ga.drop_last();
    let right = gb.drop_first();
    assert(all_ws(nl)) by {
        assert(is_ws(nl[0]));
    }
    lemma_trim_ws_suffix(u, nl);
    lemma_trim_ws_prefix(nl, v);
    lemma_tn_one(u + nl);
    lemma_tn_one(u);
    lemma_tn_one(nl + v);
    lemma_tn_one(v);
    lemma_tn_concat(left + seq![u + nl] + seq![nl + v], right);
    lemma_tn_concat(left + seq![u + nl], seq![nl + v]);
    lemma_tn_concat(left, seq![u + nl]);
    assert(ga =~= left + seq![u]);
    assert(gb =~= seq![v] + right);
    lemma_tn_concat(left, seq![u]);
    lemma_tn_concat(seq![v], right);
}

/// A text joined to another by a separator line has the ring texts of the
/// first, then those of the second.
proof fn lemma_ring_texts_join(a: Seq<char>, b: Seq<char>)
    ensures
        ring_texts(a + merge_joint() + b) == ring_texts(a) + ring_texts(b),
{
    lemma_cut_join(a, b);
    lemma_tn_joint(cut_pieces(split(a, seq!['\n'])), cut_pieces(split(b, seq!['\n'])));
}

/// The messages of ring texts do not depend, in number, on the number the
/// ring is given.
proof fn lemma_block_errors_len(ls: Seq<Seq<char>>, dims: nat, n1: nat, n2: nat)
    ensures
        block_errors(ls, dims, n1).len() == block_errors(ls, dims, n2).len(),
    decreases ls.len(),
{
    if ls.len() > 0 {
        lemma_block_errors_len(ls.drop_last(), dims, n1, n2);
    }
}

/// The messages of ring texts `x + y`: those of `x`, then as many as `y` has.
proof fn lemma_parse_errors_concat(x: Seq<Seq<char>>, y: Seq<Seq<char>>, dims: nat)
    ensures
        parse_errors(x + y, dims).len() == parse_errors(x, dims).len() + parse_errors(y, dims).len(),
        parse_errors(x + y, dims).take(parse_errors(x, dims).len() as int) == parse_errors(x, dims),
    decreases y.len(),
{
    if y.len() == 0 {
        assert(x + y =~= x);
        assert(parse_errors(x, dims).take(parse_errors(x, dims).len() as int) =~= parse_errors(x, dims));
    } else {
        assert((x + y).drop_last() =~= x + y.drop_last());
        assert((x + y).last() == y.last());
        lemma_parse_errors_concat(x, y.drop_last(), dims);
        lemma_block_errors_len(lines(y.last()), dims, (x + y).len(), y.len());
        let pe = parse_errors(x + y.drop_last(), dims);
        let be = block_errors(lines(y.last()), dims, (x + y).len());
        assert(parse_errors(x + y, dims) == pe + be);
        assert((pe + be).take(parse_errors(x, dims).len() as int) =~= pe.take(parse_errors(x, dims).len() as int));
    }
}

/// Texts joined by a separator line: the rings of the first text, then
/// those of the second; the messages of the first, then as many as the
/// second gives (their rings numbered on after the first text's).
pub proof fn law_joined_texts(a: Seq<char>, b: Seq<char>, dims: nat)
    ensures
        ring_texts(a + merge_joint() + b) == ring_texts(a) + ring_texts(b),
        parsed_rings(ring_texts(a + merge_joint() + b), dims) == parsed_rings(ring_texts(a), dims)
            + parsed_rings(ring_texts(b), dims),
        parse_errors(ring_texts(a + merge_joint() + b), dims).len() == parse_errors(ring_texts(a), dims).len()
            + parse_errors(ring_texts(b), dims).len(),
        parse_errors(ring_texts(a + merge_joint() + b), dims).take(
            parse_errors(ring_texts(a), dims).len() as int,
        ) == parse_errors(ring_texts(a), dims),
{
    lemma_ring_texts_join(a, b);
    lemma_parsed_rings_concat(ring_texts(a), ring_texts(b), dims);
    lemma_parse_errors_concat(ring_texts(a), ring_texts(b), dims);
}

proof fn lemma_merge_texts(bs: Seq<Seq<char>>)
    requires
        bs.len() >= 1,
    ensures
        ring_texts(join(bs, merge_joint())) == ring_texts_of_each(bs),
    decreases bs.len(),
{
    let rest = bs.drop_first();
    if bs.len() == 1 {
        assert(rest =~= Seq::<Seq<char>>::empty());
        assert(ring_texts_of_each(rest) == Seq::<Seq<char>>::empty());
        assert(ring_texts_of_each(bs) =~= ring_texts(bs[0]));
        assert(join(bs, merge_joint()) == bs[0]);
    } else {
        lemma_merge_texts(rest);
        assert(join(bs, merge_joint()) == bs[0] + merge_joint() + join(rest, merge_joint()));
        lemma_ring_texts_join(bs[0], join(rest, merge_joint()));
    }
}

proof fn lemma_rings_of_each_texts(bs: Seq<Seq<char>>, dims: nat)
    ensures
        parsed_rings(ring_texts_of_each(bs), dims) == rings_of_each(bs, dims),
    decreases bs.len(),
{
    if bs.len() == 0 {
        assert(parsed_rings(Seq::<Seq<char>>::empty(), dims) == Seq::<Seq<Seq<Seq<char>>>>::empty());
    } else {
        lemma_rings_of_each_texts(bs.drop_first(), dims);
        lemma_parsed_rings_concat(ring_texts(bs[0]), ring_texts_of_each(bs.drop_first()), dims);
    }
}

/// Merging files keeps each file's rings: the ring texts of the merged text
/// are those of each file's trimmed contents, one file after the other,
/// files with nothing but whitespace left out; and so are its rings.
pub proof fn law_merge_keeps_each_files_rings(cs: Seq<Seq<char>>, dims: nat)
    ensures
        merged(cs) matches Ok(m) ==> {
            &&& ring_texts(m) == ring_texts_of_each(trimmed_nonempty(cs))
            &&& parsed_rings(ring_texts(m), dims) == rings_of_each(trimmed_nonempty(cs), dims)
        },
{
    if merged(cs) is Ok {
        let bs = trimmed_nonempty(cs);
        lemma_merge_texts(bs);
        lemma_rings_of_each_texts(bs, dims);
    }
}


/// The 3D reading of the lines of one ring gives a message wherever the 2D
/// reading does; with no 3D message, the 2D points are the first two
/// coordinates of the 3D points.
proof fn lemma_block_2d_3d(ls: Seq<Seq<char>>, n: nat)
    ensures
        block_errors(ls, 3, n).len() >= block_errors(ls, 2, n).len(),
        block_errors(ls, 3, n).len() == 0 ==> block_errors(ls, 2, n).len() == 0 && block_points(ls, 2)
            == flat_ring(block_points(ls, 3)),
    decreases ls.len(),
{
    if ls.len() > 0 {
        let prev = ls.drop_last();
        lemma_block_2d_3d(prev, n);
        let c = line_content(ls.last());
        let toks = numeric_tokens(c);
        let b2 = block_points(prev, 2);
        let b3 = block_points(prev, 3);
        if block_errors(ls, 3, n).len() == 0 {
            assert(block_errors(prev, 3, n).len() == 0);
            if c.len() > 0 {
                assert(toks.len() >= 3);
                let p3 = toks.take(3);
                assert(point_fields(c, 3) == Some(p3));
                assert(point_fields(c, 2) == Some(toks.take(2)));
                assert(p3.take(2) =~= toks.take(2));
                assert(block_points(ls, 3) == b3 + seq![p3]);
                assert(block_points(ls, 2) == b2 + seq![toks.take(2)]);
                assert(flat_ring(b3 + seq![p3]) =~= flat_ring(b3) + seq![p3.take(2)]);
            } else {
                assert(block_points(ls, 3) =~= b3);
                assert(block_points(ls, 2) =~= b2);
            }
        }
    }
}

/// Reading ring texts in 3D gives a message wherever reading them in 2D
/// does; when the 3D reading gives none, the 2D rings are the 3D rings with
/// the altitudes left out. With `bs` the ring texts of an input, these are
/// the results of `parse_3d` and `parse_2d` on it.
pub proof fn law_three_d_reading_covers_two_d(bs: Seq<Seq<char>>)
    ensures
        parse_errors(bs, 3).len() >= parse_errors(bs, 2).len(),
        parse_errors(bs, 3).len() == 0 ==> parse_errors(bs, 2).len() == 0 && parsed_rings(bs, 2)
            == flat_rings(parsed_rings(bs, 3)),
    decreases bs.len(),
{
    if bs.len() > 0 {
        let prev = bs.drop_last();
        law_three_d_reading_covers_two_d(prev);
        let ls = lines(bs.last());
        lemma_block_2d_3d(ls, bs.len());
        if parse_errors(bs, 3).len() == 0 {
            let r2 = parsed_rings(prev, 2);
            let r3 = parsed_rings(prev, 3);
            let p2 = block_points(ls, 2);
            let p3 = block_points(ls, 3);
            assert(p2.len() == p3.len());
            if p3.len() > 0 {
                assert(parsed_rings(bs, 3) == r3 + seq![p3]);
                assert(parsed_rings(bs, 2) == r2 + seq![p2]);
                assert(flat_rings(r3 + seq![p3]) =~= flat_rings(r3) + seq![flat_ring(p3)]);
            } else {
                assert(parsed_rings(bs, 3) =~= r3);
                assert(parsed_rings(bs, 2) =~= r2);
            }
        }
    }
}


/// No separator stands in the comment of a line of `s` (the lines taken
/// between line feeds).
pub open spec fn no_separator_in_comments(s: Seq<char>) -> bool {
    forall|k: int|
        0 <= k < split(s, seq!['\n']).len() ==> find(
            (#[trigger] split(s, seq!['\n'])[k]).skip(without_comment(split(s, seq!['\n'])[k]).len() as int),
            ring_separator(),
        ) is None
}

/// No separator crosses the border of two texts when a character beside
/// the border is no `=`.
proof fn lemma_no_straddle_sep(x: Seq<char>, z: Seq<char>)
    requires
        z.len() == 0 || z[0] != '=' || (x.len() > 0 && x.last() != '='),
    ensures
        no_straddle(x, z, ring_separator()),
{
    let sep = ring_separator();
    assert forall|p: int| 0 <= p < x.len() && x.len() < p + sep.len() implies !#[trigger] match_at(x + z, p, sep) by {
        if match_at(x + z, p, sep) {
            let q = x.len() - p;
            assert((x + z).subrange(p, p + 15)[q] == (x + z)[x.len() as int]);
            assert((x + z)[x.len() as int] == z[0]);
            assert((x + z).subrange(p, p + 15)[q - 1] == (x + z)[x.len() - 1]);
            assert((x + z)[x.len() - 1] == x.last());
        }
    }
}

/// A line with no separator in its comment is cut where the whole line is
/// split at the separator.
proof fn lemma_line_parts_split(x: Seq<char>)
    requires
        find(x.skip(without_comment(x).len() as int), ring_separator()) is None,
    ensures
        line_parts(x) == split(x, ring_separator()),
{
    let sep = ring_separator();
    let w = without_comment(x);
    lemma_without_comment_prefix(x);
    let dead = x.skip(w.len() as int);
    assert(x =~= w + dead);
    lemma_split_nonempty(w, sep);
    assert(split(dead, sep) == seq![dead]);
    if dead.len() > 0 {
        lemma_find(x, seq!['#']);
        lemma_find(x, seq!['/', '/']);
        match find(x, seq!['#']) {
            Some(c) => {
                assert(x.subrange(c, c + 1)[0] == x[c]);
                assert(dead[0] == x[c]);
            },
            None => match find(x, seq!['/', '/']) {
                Some(c) => {
                    assert(x.subrange(c, c + 2)[0] == x[c]);
                    assert(dead[0] == x[c]);
                },
                None => {},
            },
        }
    }
    lemma_no_straddle_sep(w, dead);
    lemma_split_concat(w, dead, sep);
    let sw = split(w, sep);
    assert(split(x, sep) =~= sw.drop_last() + seq![sw.last() + dead]);
}

/// Splitting at the separator across a line feed.
proof fn lemma_split_sep_at_nl(a: Seq<char>, x: Seq<char>)
    ensures
        split(a + seq!['\n'] + x, ring_separator()) == split(a, ring_separator()).drop_last() + seq![
            split(a, ring_separator()).last() + seq!['\n'] + split(x, ring_separator())[0]
        ] + split(x, ring_separator()).drop_first(),
{
    let sep = ring_separator();
    let nl = seq!['\n'];
    let y = nl + x;
    assert(a + nl + x =~= a + y);
    lemma_no_straddle_sep(a, y);
    lemma_split_concat(a, y, sep);
    lemma_no_straddle_sep(nl, x);
    lemma_split_concat(nl, x, sep);
    lemma_find(nl, sep);
    assert(split(nl, sep) == seq![nl]);
    lemma_split_nonempty(x, sep);
    lemma_split_nonempty(a, sep);
    let sx = split(x, sep);
    assert(split(y, sep) =~= seq![nl + sx[0]] + sx.drop_first());
    let sa = split(a, sep);
    assert(sa.last() + (nl + sx[0]) =~= sa.last() + nl + sx[0]);
    assert(split(a + y, sep) =~= sa.drop_last() + seq![sa.last() + nl + sx[0]] + sx.drop_first());
}

proof fn lemma_cut_is_split(xs: Seq<Seq<char>>)
    requires
        xs.len() > 0,
        forall|k: int|
            0 <= k < xs.len() ==> find(
                (#[trigger] xs[k]).skip(without_comment(xs[k]).len() as int),
                ring_separator(),
            ) is None,
    ensures
        cut_pieces(xs) == split(join(xs, seq!['\n']), ring_separator()),
    decreases xs.len(),
{
    let nl = seq!['\n'];
    let x = xs.last();
    assert(find(xs[xs.len() - 1].skip(without_comment(xs[xs.len() - 1]).len() as int), ring_separator()) is None);
    lemma_line_parts_split(x);
    if xs.len() == 1 {
        assert(xs.drop_last() =~= Seq::<Seq<char>>::empty());
        let e1 = seq![Seq::<char>::empty()];
        assert(cut_pieces(xs.drop_last()) == e1);
        lemma_line_parts_nonempty(x);
        assert(cut_pieces(xs) =~= line_parts(x));
        assert(join(xs, nl) == xs[0]);
    } else {
        let prev = xs.drop_last();
        assert forall|k: int| 0 <= k < prev.len() implies find(
            (#[trigger] prev[k]).skip(without_comment(prev[k]).len() as int),
            ring_separator(),
        ) is None by {
            assert(prev[k] == xs[k]);
        }
        lemma_cut_is_split(prev);
        assert(xs =~= prev.push(x));
        lemma_join_push(prev, x, nl);
        lemma_split_sep_at_nl(join(prev, nl), x);
    }
}

/// When no separator stands in a comment, the ring texts are the pieces of
/// the text between the separators, trimmed, empty ones dropped: the text
/// is split at every run of fifteen `=`, wherever it stands.
pub proof fn law_ring_texts_split_at_separator(s: Seq<char>)
    requires
        no_separator_in_comments(s),
    ensures
        ring_texts(s) == trimmed_nonempty(split(s, ring_separator())),
{
    let xs = split(s, seq!['\n']);
    lemma_split_nonempty(s, seq!['\n']);
    lemma_join_split(s, seq!['\n']);
    lemma_cut_is_split(xs);
}

} // verus!
