//! Which line of the input text a picked point comes from, and how the
//! input text is laid out for display with one line highlighted.
use vstd::prelude::*;
use crate::text::{
    chars_of, copy_range, lemma_range_at, lemma_width_concat, lemma_width_split, lines, matches_at,
    next_line, pieces, ranges_within, single, split, split_ranges, string_of, trim, trim_bounds,
    width,
};
use crate::parser::{
    comment_start, number_ranges, numeric_tokens, ring_separator, separator, without_comment,
};

verus! {

/// A point picked in the 2D view: its ring and its place in that ring.
#[derive(Debug, Clone, Copy, PartialEq, Eq, Structural)]
pub struct PickedPoint2D {
    pub ring_idx: usize,
    pub point_idx: usize,
}

/// A point picked in the 3D view: its ring and its place in that ring.
#[derive(Debug, Clone, Copy, PartialEq, Eq, Structural)]
pub struct PickedPoint3D {
    pub ring_idx: usize,
    pub point_idx: usize,
}

/// A line holds at least `dims` numbers.
pub open spec fn looks_like_point(line: Seq<char>, dims: nat) -> bool {
    numeric_tokens(line).len() >= dims
}

/// The scan of the lines `ls` looking for point `tp` of ring `tr`: the line
/// where it was found, or else the ring and point reached and whether the
/// current ring has a point yet.
pub open spec fn scan(ls: Seq<Seq<char>>, tr: nat, tp: nat, dims: nat) -> (Option<nat>, nat, nat, bool)
    decreases ls.len(),
{
    if ls.len() == 0 {
        (None, 0, 0, false)
    } else {
        let prev = scan(ls.drop_last(), tr, tp, dims);
        let st = trim(without_comment(ls.last()));
        if prev.0 is Some {
            prev
        } else if st.len() == 0 {
            prev
        } else if st == ring_separator() {
            if prev.3 {
                (None, prev.1 + 1, 0, false)
            } else {
                prev
            }
        } else if looks_like_point(st, dims) {
            if prev.1 == tr && prev.2 == tp {
                (Some((ls.len() - 1) as nat), prev.1, prev.2, prev.3)
            } else {
                (None, prev.1, prev.2 + 1, true)
            }
        } else {
            prev
        }
    }
}

/// The index of the line of `input` that holds point `tp` of ring `tr`.
pub open spec fn selected_line(input: Seq<char>, tr: nat, tp: nat, dims: nat) -> Option<nat> {
    scan(lines(input), tr, tp, dims).0
}

pub proof fn lemma_scan_bounds(ls: Seq<Seq<char>>, tr: nat, tp: nat, dims: nat)
    ensures
        scan(ls, tr, tp, dims).1 <= ls.len(),
        scan(ls, tr, tp, dims).2 <= ls.len(),
    decreases ls.len(),
{
    if ls.len() > 0 {
        lemma_scan_bounds(ls.drop_last(), tr, tp, dims);
    }
}

/// Once the scan has found the line, later lines change nothing.
pub proof fn lemma_scan_found(ls: Seq<Seq<char>>, k: int, tr: nat, tp: nat, dims: nat)
    requires
        0 <= k <= ls.len(),
        scan(ls.take(k), tr, tp, dims).0 is Some,
    ensures
        scan(ls, tr, tp, dims) == scan(ls.take(k), tr, tp, dims),
    decreases ls.len(),
{
    if ls.len() == k {
        assert(ls.take(k) =~= ls);
    } else {
        assert(ls.drop_last().take(k) =~= ls.take(k));
        lemma_scan_found(ls.drop_last(), k, tr, tp, dims);
    }
}

/// `line` up to its first `#`, or else up to its first `//`.
pub fn strip_inline_comment(line: &str) -> (r: &str)
    ensures
        r@ == without_comment(line@),
{
    crate::parser::strip_comment(line)
}

/// Whether `line` holds at least `dims` numbers.
pub fn looks_like_point_line(line: &str, dims: usize) -> (r: bool)
    ensures
        r == looks_like_point(line@, dims as nat),
{
    let s = chars_of(line);
    let rs = number_ranges(&s, 0, s.len());
    assert(s@.subrange(0, s.len() as int) =~= s@);
    rs.len() >= dims
}

/// The index of the line of `input` that holds point `target_point_idx`
/// of ring `target_ring_idx`, counting only lines with at least `dims`
/// numbers and starting a new ring at a separator line after a point.
pub fn selected_line_for_dims(
    input: &str,
    target_ring_idx: usize,
    target_point_idx: usize,
    dims: usize,
) -> (r: Option<usize>)
    ensures
        match r {
            Some(l) => selected_line(input@, target_ring_idx as nat, target_point_idx as nat, dims as nat) == Some(l as nat),
            None => selected_line(input@, target_ring_idx as nat, target_point_idx as nat, dims as nat) is None,
        },
{
    let s = chars_of(input);
    let sep = separator();
    let ghost ls = lines(s@);
    let ghost tr = target_ring_idx as nat;
    let ghost tp = target_point_idx as nat;
    let ghost d = dims as nat;
    let mut ring_idx: usize = 0;
    let mut point_idx: usize = 0;
    let mut has_point_in_ring = false;
    let mut pos: usize = 0;
    let mut li: usize = 0;
    proof {
        crate::parser::lemma_lines_len(s@);
        assert(s@.skip(0) =~= s@);
        assert(ls.skip(0) =~= ls);
        assert(ls.take(0) =~= Seq::<Seq<char>>::empty());
    }
    while pos < s.len()
        invariant
            s@ == input@,
            ls == lines(s@),
            sep@ == ring_separator(),
            pos <= s.len(),
            li <= ls.len(),
            ls.len() <= s.len(),
            lines(s@.skip(pos as int)) == ls.skip(li as int),
            scan(ls.take(li as int), tr, tp, d) == (None::<nat>, ring_idx as nat, point_idx as nat, has_point_in_ring),
            tr == target_ring_idx,
            tp == target_point_idx,
            d == dims,
        decreases s.len() - pos,
    {
        let (a, b, next) = next_line(&s, pos);
        proof {
            assert(ls.skip(li as int).len() > 0);
            assert(ls[li as int] == ls.skip(li as int)[0]);
            assert(ls.skip(li + 1) =~= ls.skip(li as int).drop_first());
            assert(ls.take(li + 1).drop_last() =~= ls.take(li as int));
            lemma_scan_bounds(ls.take(li as int), tr, tp, d);
        }
        let c = comment_start(&s, a, b);
        let (x, y) = trim_bounds(&s, a, c);
        let ghost st = s@.subrange(x as int, y as int);
        if x < y {
            let is_sep = y - x == 15 && matches_at(&s, x, &sep);
            proof {
                if y - x == 15 {
                    assert(s@.subrange(x as int, x + sep.len()) == st);
                }
                if is_sep {
                    assert(st == ring_separator());
                } else {
                    assert(st != ring_separator()) by {
                        if st == ring_separator() {
                            assert(st.len() == 15);
                        }
                    }
                }
            }
            if is_sep {
                if has_point_in_ring {
                    ring_idx = ring_idx + 1;
                    point_idx = 0;
                    has_point_in_ring = false;
                }
            } else {
                let rs = number_ranges(&s, x, y);
                if rs.len() >= dims {
                    if ring_idx == target_ring_idx && point_idx == target_point_idx {
                        proof {
                            assert(scan(ls.take(li + 1), tr, tp, d).0 == Some(li as nat));
                            lemma_scan_found(ls, li + 1, tr, tp, d);
                        }
                        return Some(li);
                    }
                    point_idx = point_idx + 1;
                    has_point_in_ring = true;
                }
            }
        }
        li = li + 1;
        pos = next;
    }
    proof {
        assert(s@.skip(pos as int) =~= Seq::<char>::empty());
        assert(ls.take(li as int) =~= ls);
    }
    None
}

/// The line of `input` that holds the picked 2D point.
pub fn selected_line_for_2d(input: &str, selected: Option<PickedPoint2D>) -> (r: Option<usize>)
    ensures
        match selected {
            None => r is None,
            Some(p) => match r {
                Some(l) => selected_line(input@, p.ring_idx as nat, p.point_idx as nat, 2) == Some(l as nat),
                None => selected_line(input@, p.ring_idx as nat, p.point_idx as nat, 2) is None,
            },
        },
{
    match selected {
        None => None,
        Some(picked) => selected_line_for_dims(input, picked.ring_idx, picked.point_idx, 2),
    }
}

/// The line of `input` that holds the picked 3D point.
pub fn selected_line_for_3d(input: &str, selected: Option<PickedPoint3D>) -> (r: Option<usize>)
    ensures
        match selected {
            None => r is None,
            Some(p) => match r {
                Some(l) => selected_line(input@, p.ring_idx as nat, p.point_idx as nat, 3) == Some(l as nat),
                None => selected_line(input@, p.ring_idx as nat, p.point_idx as nat, 3) is None,
            },
        },
{
    match selected {
        None => None,
        Some(picked) => selected_line_for_dims(input, picked.ring_idx, picked.point_idx, 3),
    }
}


/// The index of the first character of line `target` of `text`, lines
/// being split at every `\n`; past the last line, the length of `text` plus one.
pub open spec fn line_start(text: Seq<char>, target: nat) -> nat {
    let ps = split(text, seq!['\n']);
    if target < ps.len() {
        width(ps.take(target as int))
    } else {
        width(ps)
    }
}

/// The index of the first character of line `target_line_idx` of `text`.
pub fn char_index_for_line(text: &str, target_line_idx: usize) -> (r: usize)
    requires
        text@.len() < usize::MAX,
    ensures
        r == line_start(text@, target_line_idx as nat),
        target_line_idx >= split(text@, seq!['\n']).len() ==> r == text@.len() + 1,
{
    let s = chars_of(text);
    let nl = single('\n');
    let rs = split_ranges(&s, 0, s.len(), &nl);
    let ghost ps = split(s@, seq!['\n']);
    proof {
        assert(s@.subrange(0, s.len() as int) =~= s@);
        lemma_width_split(s@, '\n');
        assert(ps.take(0) =~= Seq::<Seq<char>>::empty());
    }
    let mut char_index: usize = 0;
    let mut k: usize = 0;
    while k < rs.len()
        invariant
            s@ == text@,
            s@.len() < usize::MAX,
            ps == split(s@, seq!['\n']),
            pieces(s@, rs@) == ps,
            ranges_within(s.len() as nat, rs@),
            width(ps) == s@.len() + 1,
            k <= rs.len(),
            k <= target_line_idx,
            char_index == width(ps.take(k as int)),
        decreases rs.len() - k,
    {
        if k == target_line_idx {
            return char_index;
        }
        let (a, b) = rs[k];
        proof {
            lemma_range_at(s.len() as nat, rs@, k as int);
            assert(ps.take(k + 1).drop_last() =~= ps.take(k as int));
            assert(ps[k as int] == s@.subrange(a as int, b as int));
            assert(ps =~= ps.take(k + 1) + ps.skip(k + 1));
            lemma_width_concat(ps.take(k + 1), ps.skip(k + 1));
        }
        char_index = char_index + (b - a) + 1;
        k = k + 1;
    }
    assert(ps.take(rs.len() as int) =~= ps);
    assert(pieces(s@, rs@).len() == rs@.len());
    char_index
}

/// The display texts of the lines `ps`: each but the last followed by `\n`.
pub open spec fn line_texts(ps: Seq<Seq<char>>) -> Seq<Seq<char>>
    decreases ps.len(),
{
    if ps.len() <= 1 {
        ps
    } else {
        seq![ps[0] + seq!['\n']] + line_texts(ps.drop_first())
    }
}

/// The segments in which `text` is laid out: one per line (split at `\n`),
/// the line `sel` marked; an empty text is one unmarked empty segment.
pub open spec fn highlight_segments(text: Seq<char>, sel: Option<usize>) -> Seq<(Seq<char>, bool)> {
    if text.len() == 0 {
        seq![(Seq::<char>::empty(), false)]
    } else {
        let ts = line_texts(split(text, seq!['\n']));
        Seq::new(ts.len(), |i: int| (ts[i], sel == Some(i as usize)))
    }
}

pub proof fn lemma_line_texts(ps: Seq<Seq<char>>)
    ensures
        line_texts(ps).len() == ps.len(),
        forall|i: int| 0 <= i < ps.len() ==> #[trigger] line_texts(ps)[i] == if i + 1 < ps.len() {
            ps[i] + seq!['\n']
        } else {
            ps[i]
        },
    decreases ps.len(),
{
    if ps.len() > 1 {
        let rest = ps.drop_first();
        lemma_line_texts(rest);
        assert forall|i: int| 0 <= i < ps.len() implies #[trigger] line_texts(ps)[i] == if i + 1
            < ps.len() {
            ps[i] + seq!['\n']
        } else {
            ps[i]
        } by {
            if i > 0 {
                assert(line_texts(ps)[i] == line_texts(rest)[i - 1]);
                assert(rest[i - 1] == ps[i]);
            }
        }
    }
}

pub open spec fn segment_seqs(v: Seq<(String, bool)>) -> Seq<(Seq<char>, bool)> {
    v.map_values(|p: (String, bool)| (p.0@, p.1))
}

/// The segments in which `text` is shown: its lines (split at `\n`), each
/// but the last with its `\n`, the line `selected_line_index` marked.
pub fn line_highlight_segments(text: &str, selected_line_index: Option<usize>) -> (r: Vec<(String, bool)>)
    ensures
        segment_seqs(r@) == highlight_segments(text@, selected_line_index),
{
    let s = chars_of(text);
    let mut r: Vec<(String, bool)> = Vec::new();
    if s.len() == 0 {
        r.push((String::new(), false));
        assert(segment_seqs(r@) =~= highlight_segments(text@, selected_line_index));
        return r;
    }
    let nl = single('\n');
    let rs = split_ranges(&s, 0, s.len(), &nl);
    let ghost ps = split(s@, seq!['\n']);
    proof {
        assert(s@.subrange(0, s.len() as int) =~= s@);
        lemma_line_texts(ps);
    }
    let ghost ts = line_texts(ps);
    let mut k: usize = 0;
    while k < rs.len()
        invariant
            s@ == text@,
            s@.len() > 0,
            ps == split(s@, seq!['\n']),
            ts == line_texts(ps),
            ts.len() == ps.len(),
            forall|i: int| 0 <= i < ps.len() ==> #[trigger] ts[i] == if i + 1 < ps.len() {
                ps[i] + seq!['\n']
            } else {
                ps[i]
            },
            pieces(s@, rs@) == ps,
            ranges_within(s.len() as nat, rs@),
            k <= rs.len(),
            segment_seqs(r@) == highlight_segments(text@, selected_line_index).take(k as int),
        decreases rs.len() - k,
    {
        let (a, b) = rs[k];
        proof {
            lemma_range_at(s.len() as nat, rs@, k as int);
        }
        let mut piece = copy_range(&s, a, b);
        if k + 1 < rs.len() {
            piece.push('\n');
        }
        let marked = match selected_line_index {
            Some(sel) => sel == k,
            None => false,
        };
        let seg = (string_of(&piece), marked);
        let ghost old_r = r@;
        r.push(seg);
        proof {
            assert(piece@ == ts[k as int]) by {
                if k + 1 < rs.len() {
                    assert(piece@ =~= ps[k as int] + seq!['\n']);
                }
            }
            assert(segment_seqs(r@) =~= highlight_segments(text@, selected_line_index).take(k + 1)) by {
                assert(r@ == old_r.push(seg));
                assert(segment_seqs(old_r).len() == old_r.len());
                assert forall|j: int| 0 <= j <= k implies #[trigger] segment_seqs(r@)[j]
                    == highlight_segments(text@, selected_line_index).take(k + 1)[j] by {
                    if j < k {
                        assert(segment_seqs(r@)[j] == segment_seqs(old_r)[j]);
                    }
                }
            }
        }
        k = k + 1;
    }
    assert(highlight_segments(text@, selected_line_index).take(rs.len() as int) =~= highlight_segments(text@, selected_line_index));
    r
}

} // verus!
