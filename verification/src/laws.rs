//! Properties that hold across the functions of the library.
use vstd::prelude::*;
use crate::parser::{
    block_points, line_content, without_comment, numeric_tokens, parsed_rings, point_fields,
    trimmed_nonempty, field_sep_pred, block_errors, error_message, parse_errors,
};
use crate::number::{
    all_digits, dot_pred, exp_pred, is_exponent, is_float_literal, is_mantissa, is_number, is_sign,
    unsigned_part,
};
use crate::palette::{outline, palette};
use crate::selection::{highlight_segments, line_start, line_texts, lemma_line_texts};
use crate::import::{
    file_names, import_status, merge_joint, merged, no_data_message, no_files_message, ImportedFile,
};
use crate::text::{
    all_ws, decimal, digit_char, find, first_where, flatten, lemma_first_where_is, is_ws, join, lemma_find, lemma_find_is, lemma_first_where,
    lemma_join_split, lemma_split_nonempty, lemma_width_concat, lines, match_at, split, trim,
    trim_end, trim_start, width,
};

verus! {

// ---- trimming ----

proof fn lemma_trim_start_ws_prefix(w: Seq<char>, p: Seq<char>)
    requires
        all_ws(w),
    ensures
        trim_start(w + p) == trim_start(p),
    decreases w.len(),
{
    if w.len() > 0 {
        assert((w + p)[0] == w[0]);
        assert((w + p).drop_first() =~= w.drop_first() + p);
        lemma_trim_start_ws_prefix(w.drop_first(), p);
    } else {
        assert(w + p =~= p);
    }
}

pub(crate) proof fn lemma_trim_start_all_ws(w: Seq<char>)
    requires
        all_ws(w),
    ensures
        trim_start(w).len() == 0,
    decreases w.len(),
{
    if w.len() > 0 {
        lemma_trim_start_all_ws(w.drop_first());
    }
}

proof fn lemma_trim_start_append(p: Seq<char>, w: Seq<char>)
    ensures
        trim_start(p + w) == if trim_start(p).len() > 0 {
            trim_start(p) + w
        } else {
            trim_start(w)
        },
    decreases p.len(),
{
    if p.len() == 0 {
        assert(p + w =~= w);
    } else if is_ws(p[0]) {
        assert((p + w)[0] == p[0]);
        assert((p + w).drop_first() =~= p.drop_first() + w);
        lemma_trim_start_append(p.drop_first(), w);
    } else {
        assert((p + w)[0] == p[0]);
    }
}

proof fn lemma_trim_end_ws_suffix(q: Seq<char>, w: Seq<char>)
    requires
        all_ws(w),
    ensures
        trim_end(q + w) == trim_end(q),
    decreases w.len(),
{
    if w.len() > 0 {
        assert((q + w).last() == w.last());
        assert((q + w).drop_last() =~= q + w.drop_last());
        lemma_trim_end_ws_suffix(q, w.drop_last());
    } else {
        assert(q + w =~= q);
    }
}

/// Whitespace in front of a text does not change its trimmed form.
pub(crate) proof fn lemma_trim_ws_prefix(w: Seq<char>, p: Seq<char>)
    requires
        all_ws(w),
    ensures
        trim(w + p) == trim(p),
{
    lemma_trim_start_ws_prefix(w, p);
}

/// Whitespace after a text does not change its trimmed form.
pub(crate) proof fn lemma_trim_ws_suffix(p: Seq<char>, w: Seq<char>)
    requires
        all_ws(w),
    ensures
        trim(p + w) == trim(p),
{
    lemma_trim_start_append(p, w);
    if trim_start(p).len() > 0 {
        lemma_trim_end_ws_suffix(trim_start(p), w);
    } else {
        lemma_trim_start_all_ws(w);
        assert(trim_start(w) =~= trim_start(p));
    }
}





// ---- splitting at a pattern ----

/// No occurrence of `pat` in `x + z` starts in `x` and ends in `z`.
pub open spec fn no_straddle(x: Seq<char>, z: Seq<char>, pat: Seq<char>) -> bool {
    forall|p: int| 0 <= p < x.len() && x.len() < p + pat.len() ==> !#[trigger] match_at(x + z, p, pat)
}

proof fn lemma_match_in_prefix(x: Seq<char>, z: Seq<char>, pat: Seq<char>, p: int)
    requires
        0 <= p,
        p + pat.len() <= x.len(),
    ensures
        match_at(x + z, p, pat) == match_at(x, p, pat),
{
    assert((x + z).subrange(p, p + pat.len()) =~= x.subrange(p, p + pat.len()));
}

proof fn lemma_match_in_suffix(x: Seq<char>, z: Seq<char>, pat: Seq<char>, p: int)
    requires
        x.len() <= p,
    ensures
        match_at(x + z, p, pat) == match_at(z, p - x.len(), pat),
{
    if p + pat.len() <= x.len() + z.len() {
        assert((x + z).subrange(p, p + pat.len()) =~= z.subrange(p - x.len(), p - x.len() + pat.len()));
    }
}

pub(crate) proof fn lemma_find_prefix(x: Seq<char>, z: Seq<char>, pat: Seq<char>, i: int)
    requires
        pat.len() > 0,
        find(x, pat) == Some(i),
    ensures
        find(x + z, pat) == Some(i),
{
    lemma_find(x, pat);
    lemma_match_in_prefix(x, z, pat, i);
    assert forall|j: int| 0 <= j < i implies !#[trigger] match_at(x + z, j, pat) by {
        lemma_match_in_prefix(x, z, pat, j);
    }
    lemma_find_is(x + z, pat, i);
}

pub(crate) proof fn lemma_find_past(x: Seq<char>, z: Seq<char>, pat: Seq<char>)
    requires
        pat.len() > 0,
        find(x, pat) is None,
        no_straddle(x, z, pat),
    ensures
        find(x + z, pat) == match find(z, pat) {
            Some(j) => Some(x.len() + j),
            None => None::<int>,
        },
{
    lemma_find(x, pat);
    lemma_find(z, pat);
    assert forall|p: int| 0 <= p < x.len() implies !#[trigger] match_at(x + z, p, pat) by {
        if p + pat.len() <= x.len() {
            lemma_match_in_prefix(x, z, pat, p);
        }
    }
    match find(z, pat) {
        Some(j) => {
            lemma_match_in_suffix(x, z, pat, x.len() + j);
            assert forall|p: int| 0 <= p < x.len() + j implies !#[trigger] match_at(x + z, p, pat) by {
                if p >= x.len() {
                    lemma_match_in_suffix(x, z, pat, p);
                }
            }
            lemma_find_is(x + z, pat, x.len() + j);
        },
        None => {
            lemma_find(x + z, pat);
            match find(x + z, pat) {
                Some(k) => {
                    if k >= x.len() {
                        lemma_match_in_suffix(x, z, pat, k);
                    }
                },
                None => {},
            }
        },
    }
}

/// Splitting `x + z`, where no occurrence crosses the border, splits `x`
/// and `z` and glues the last piece of `x` to the first of `z`.
pub proof fn lemma_split_concat(x: Seq<char>, z: Seq<char>, pat: Seq<char>)
    requires
        pat.len() > 0,
        no_straddle(x, z, pat),
    ensures
        split(x + z, pat) == split(x, pat).drop_last() + seq![split(x, pat).last() + split(z, pat)[0]]
            + split(z, pat).drop_first(),
    decreases x.len(),
{
    lemma_split_nonempty(x, pat);
    lemma_split_nonempty(z, pat);
    let xs = split(x, pat);
    let zs = split(z, pat);
    match find(x, pat) {
        Some(i) => {
            lemma_find(x, pat);
            lemma_find_prefix(x, z, pat, i);
            let x2 = x.skip(i + pat.len());
            assert((x + z).skip(i + pat.len()) =~= x2 + z);
            assert((x + z).take(i) =~= x.take(i));
            assert forall|p: int| 0 <= p < x2.len() && x2.len() < p + pat.len() implies !#[trigger] match_at(
                x2 + z,
                p,
                pat,
            ) by {
                let q = p + i + pat.len();
                assert(!match_at(x + z, q, pat));
                if p + pat.len() <= (x2 + z).len() {
                    assert((x + z).subrange(q, q + pat.len()) =~= (x2 + z).subrange(p, p + pat.len()));
                }
            }
            lemma_split_concat(x2, z, pat);
            lemma_split_nonempty(x2, pat);
            let xs2 = split(x2, pat);
            assert(xs == seq![x.take(i)] + xs2);
            assert(xs.drop_last() =~= seq![x.take(i)] + xs2.drop_last());
            assert(xs.last() == xs2.last());
            assert(split(x + z, pat) == seq![x.take(i)] + split(x2 + z, pat));
            assert(split(x + z, pat) =~= xs.drop_last() + seq![xs.last() + zs[0]] + zs.drop_first());
        },
        None => {
            lemma_find_past(x, z, pat);
            assert(xs == seq![x]);
            match find(z, pat) {
                Some(j) => {
                    lemma_find(z, pat);
                    assert((x + z).take(x.len() + j) =~= x + z.take(j));
                    assert((x + z).skip(x.len() + j + pat.len()) =~= z.skip(j + pat.len()));
                    assert(zs == seq![z.take(j)] + split(z.skip(j + pat.len()), pat));
                    assert(split(x + z, pat) =~= xs.drop_last() + seq![xs.last() + zs[0]] + zs.drop_first());
                },
                None => {
                    assert(zs == seq![z]);
                    assert(split(x + z, pat) =~= xs.drop_last() + seq![xs.last() + zs[0]] + zs.drop_first());
                },
            }
        },
    }
}


// ---- trimmed pieces and rings ----


pub(crate) proof fn lemma_tn_one(x: Seq<char>)
    ensures
        trimmed_nonempty(seq![x]) == if trim(x).len() > 0 {
            seq![trim(x)]
        } else {
            seq![]
        },
{
    let e = Seq::<Seq<char>>::empty();
    assert(seq![x].drop_last() =~= e);
    assert(seq![x].last() == x);
    assert(trimmed_nonempty(e) == e);
    if trim(x).len() > 0 {
        assert(trimmed_nonempty(seq![x]) == e + seq![trim(x)]);
        assert(e + seq![trim(x)] =~= seq![trim(x)]);
    } else {
        assert(trimmed_nonempty(seq![x]) == e + e);
        assert(e + e =~= e);
    }
}



pub(crate) proof fn lemma_parsed_rings_concat(a: Seq<Seq<char>>, b: Seq<Seq<char>>, dims: nat)
    ensures
        parsed_rings(a + b, dims) == parsed_rings(a, dims) + parsed_rings(b, dims),
    decreases b.len(),
{
    if b.len() == 0 {
        assert(a + b =~= a);
        assert(parsed_rings(a, dims) + parsed_rings(b, dims) =~= parsed_rings(a, dims));
    } else {
        assert((a + b).drop_last() =~= a + b.drop_last());
        assert((a + b).last() == b.last());
        lemma_parsed_rings_concat(a, b.drop_last(), dims);
        assert(parsed_rings(a + b, dims) =~= parsed_rings(a, dims) + parsed_rings(b, dims));
    }
}

/// One file merges to its trimmed contents, or to the message that there
/// is no data when it holds nothing but whitespace.
pub proof fn law_merge_single_file(c: Seq<char>)
    ensures
        trim(c).len() > 0 ==> merged(seq![c]) == Ok::<Seq<char>, Seq<char>>(trim(c)),
        trim(c).len() == 0 ==> merged(seq![c]) == Err::<Seq<char>, Seq<char>>(crate::import::no_data_message()),
{
    lemma_tn_one(c);
    if trim(c).len() > 0 {
        assert(join(seq![trim(c)], merge_joint()) == trim(c));
    }
}

proof fn lemma_numeric_tokens_are_numbers(s: Seq<char>)
    ensures
        forall|i: int| 0 <= i < numeric_tokens(s).len() ==> is_float_literal(#[trigger] numeric_tokens(s)[i]),
    decreases s.len(),
{
    if s.len() > 0 {
        let k = first_where(s, field_sep_pred());
        lemma_first_where(s, field_sep_pred());
        let tok = s.take(k);
        let head: Seq<Seq<char>> = if is_float_literal(tok) { seq![tok] } else { seq![] };
        let rest: Seq<Seq<char>> = if k < s.len() { numeric_tokens(s.skip(k + 1)) } else { seq![] };
        if k < s.len() {
            lemma_numeric_tokens_are_numbers(s.skip(k + 1));
        }
        assert(numeric_tokens(s) == head + rest);
        assert forall|i: int| 0 <= i < numeric_tokens(s).len() implies is_float_literal(#[trigger] numeric_tokens(s)[i]) by {
            if i < head.len() {
                assert(numeric_tokens(s)[i] == head[i]);
            } else {
                assert(numeric_tokens(s)[i] == rest[i - head.len()]);
            }
        }
    }
}

proof fn lemma_block_points_are_numbers(ls: Seq<Seq<char>>, dims: nat)
    ensures
        forall|j: int, k: int| 0 <= j < block_points(ls, dims).len() && 0 <= k < block_points(ls, dims)[j].len()
            ==> is_float_literal(#[trigger] block_points(ls, dims)[j][k]),
    decreases ls.len(),
{
    if ls.len() > 0 {
        lemma_block_points_are_numbers(ls.drop_last(), dims);
        let c = line_content(ls.last());
        let prev = block_points(ls.drop_last(), dims);
        lemma_numeric_tokens_are_numbers(c);
        match point_fields(c, dims) {
            Some(p) => {
                if c.len() > 0 {
                    assert(block_points(ls, dims) == prev + seq![p]);
                    assert forall|j: int, k: int| 0 <= j < block_points(ls, dims).len() && 0 <= k < block_points(ls, dims)[j].len()
                        implies is_float_literal(#[trigger] block_points(ls, dims)[j][k]) by {
                        if j < prev.len() {
                            assert(block_points(ls, dims)[j] == prev[j]);
                        } else {
                            assert(block_points(ls, dims)[j] == p);
                            assert(p[k] == numeric_tokens(c)[k]);
                        }
                    }
                } else {
                    assert(block_points(ls, dims) =~= prev);
                }
            },
            None => {
                assert(block_points(ls, dims) =~= prev);
            },
        }
    }
}

/// Every ring parsed has a point, and every coordinate of every point is
/// text that reads as a number.
pub proof fn law_rings_have_points_of_numbers(bs: Seq<Seq<char>>, dims: nat)
    ensures
        forall|i: int| 0 <= i < parsed_rings(bs, dims).len() ==> (#[trigger] parsed_rings(bs, dims)[i]).len() > 0,
        forall|i: int, j: int, k: int|
            0 <= i < parsed_rings(bs, dims).len() && 0 <= j < parsed_rings(bs, dims)[i].len()
                && 0 <= k < parsed_rings(bs, dims)[i][j].len() ==> is_float_literal(#[trigger] parsed_rings(bs, dims)[i][j][k]),
    decreases bs.len(),
{
    if bs.len() > 0 {
        law_rings_have_points_of_numbers(bs.drop_last(), dims);
        let prev = parsed_rings(bs.drop_last(), dims);
        let pts = block_points(lines(bs.last()), dims);
        lemma_block_points_are_numbers(lines(bs.last()), dims);
        if pts.len() > 0 {
            assert(parsed_rings(bs, dims) == prev + seq![pts]);
            assert forall|i: int| 0 <= i < parsed_rings(bs, dims).len() implies (#[trigger] parsed_rings(bs, dims)[i]).len() > 0 by {
                if i < prev.len() {
                    assert(parsed_rings(bs, dims)[i] == prev[i]);
                }
            }
            assert forall|i: int, j: int, k: int|
                0 <= i < parsed_rings(bs, dims).len() && 0 <= j < parsed_rings(bs, dims)[i].len()
                    && 0 <= k < parsed_rings(bs, dims)[i][j].len() implies is_float_literal(#[trigger] parsed_rings(bs, dims)[i][j][k]) by {
                if i < prev.len() {
                    assert(parsed_rings(bs, dims)[i] == prev[i]);
                } else {
                    assert(parsed_rings(bs, dims)[i] == pts);
                }
            }
        } else {
            assert(parsed_rings(bs, dims) =~= prev);
        }
    }
}

proof fn lemma_flatten_line_texts(ps: Seq<Seq<char>>)
    requires
        ps.len() > 0,
    ensures
        flatten(line_texts(ps)) == join(ps, seq!['\n']),
    decreases ps.len(),
{
    if ps.len() == 1 {
        let e = Seq::<Seq<char>>::empty();
        assert(line_texts(ps).drop_first() =~= e);
        assert(flatten(e) == Seq::<char>::empty());
        assert(flatten(line_texts(ps)) == ps[0] + flatten(e));
        assert(flatten(line_texts(ps)) =~= ps[0]);
    } else {
        lemma_flatten_line_texts(ps.drop_first());
        assert(line_texts(ps).drop_first() =~= line_texts(ps.drop_first()));
        assert(flatten(line_texts(ps)) =~= join(ps, seq!['\n']));
    }
}

/// The segments in which the input is shown hold its text exactly, line by
/// line, and the marked segment is the selected line.
pub proof fn law_layout_shows_text(text: Seq<char>, sel: Option<usize>)
    ensures
        flatten(highlight_segments(text, sel).map_values(|g: (Seq<char>, bool)| g.0)) == text,
        text.len() > 0 ==> highlight_segments(text, sel).len() == split(text, seq!['\n']).len(),
        forall|i: int| 0 <= i < highlight_segments(text, sel).len() ==> (#[trigger] highlight_segments(text, sel)[i]).1
            == (text.len() > 0 && sel == Some(i as usize)),
{
    let segs = highlight_segments(text, sel);
    let firsts = segs.map_values(|g: (Seq<char>, bool)| g.0);
    if text.len() == 0 {
        let e = Seq::<Seq<char>>::empty();
        assert(firsts.drop_first() =~= e);
        assert(flatten(e) == Seq::<char>::empty());
        assert(flatten(firsts) == firsts[0] + flatten(e));
        assert(flatten(firsts) =~= text);
    } else {
        let ps = split(text, seq!['\n']);
        lemma_split_nonempty(text, seq!['\n']);
        lemma_line_texts(ps);
        assert(firsts =~= line_texts(ps));
        lemma_flatten_line_texts(ps);
        lemma_join_split(text, seq!['\n']);
    }
}


proof fn lemma_trim_start_index(s: Seq<char>) -> (k: int)
    ensures
        0 <= k <= s.len(),
        trim_start(s) == s.skip(k),
        forall|j: int| 0 <= j < k ==> is_ws(#[trigger] s[j]),
    decreases s.len(),
{
    if s.len() > 0 && is_ws(s[0]) {
        let t = s.drop_first();
        let k1 = lemma_trim_start_index(t);
        assert(t.skip(k1) =~= s.skip(k1 + 1));
        assert forall|j: int| 0 <= j < k1 + 1 implies is_ws(#[trigger] s[j]) by {
            if j > 0 {
                assert(s[j] == t[j - 1]);
            }
        }
        k1 + 1
    } else {
        assert(s.skip(0) =~= s);
        0
    }
}

/// A line whose first character after its indentation is `#`, or whose
/// text after its indentation starts with `//` and that holds no `#`, is a
/// comment: nothing of it is left to read.
pub proof fn law_comment_lines_are_blank(line: Seq<char>)
    requires
        trim_start(line).len() > 0,
        trim_start(line)[0] == '#' || (trim_start(line).len() >= 2 && trim_start(line)[0] == '/'
            && trim_start(line)[1] == '/' && forall|i: int| 0 <= i < line.len() ==> #[trigger] line[i] != '#'),
    ensures
        line_content(line).len() == 0,
{
    let k = lemma_trim_start_index(line);
    let hash = seq!['#'];
    let slashes = seq!['/', '/'];
    assert(line[k] == trim_start(line)[0]);
    if trim_start(line)[0] == '#' {
        assert(line.subrange(k, k + 1) =~= hash);
        assert forall|j: int| 0 <= j < k implies !#[trigger] match_at(line, j, hash) by {
            assert(line.subrange(j, j + 1)[0] == line[j]);
            assert(is_ws(line[j]));
        }
        lemma_find_is(line, hash, k);
    } else {
        assert(line[k + 1] == trim_start(line)[1]);
        lemma_find(line, hash);
        assert(find(line, hash) is None) by {
            if find(line, hash) is Some {
                let i = find(line, hash)->Some_0;
                assert(line.subrange(i, i + 1)[0] == line[i]);
            }
        }
        assert(line.subrange(k, k + 2) =~= slashes);
        assert forall|j: int| 0 <= j < k implies !#[trigger] match_at(line, j, slashes) by {
            assert(line.subrange(j, j + 2)[0] == line[j]);
            assert(is_ws(line[j]));
        }
        lemma_find_is(line, slashes, k);
    }
    let w = line.take(k);
    assert(without_comment(line) == w);
    assert(all_ws(w)) by {
        assert forall|j: int| 0 <= j < w.len() implies is_ws(#[trigger] w[j]) by {
            assert(w[j] == line[j]);
        }
    }
    lemma_trim_start_all_ws(w);
}


proof fn lemma_piece_in_join(ps: Seq<Seq<char>>, c: char, k: int)
    requires
        0 <= k < ps.len(),
    ensures
        width(ps.take(k)) + ps[k].len() <= join(ps, seq![c]).len(),
        join(ps, seq![c]).subrange(width(ps.take(k)) as int, (width(ps.take(k)) + ps[k].len()) as int) == ps[k],
        k > 0 ==> join(ps, seq![c])[width(ps.take(k)) - 1] == c,
    decreases k,
{
    let j = join(ps, seq![c]);
    if k == 0 {
        assert(ps.take(0) =~= Seq::<Seq<char>>::empty());
        if ps.len() == 1 {
            assert(j == ps[0]);
        } else {
            assert(j == ps[0] + seq![c] + join(ps.drop_first(), seq![c]));
        }
        assert(j.subrange(0, ps[0].len() as int) =~= ps[0]);
    } else {
        let rest = ps.drop_first();
        lemma_piece_in_join(rest, c, k - 1);
        let j2 = join(rest, seq![c]);
        assert(j == ps[0] + seq![c] + j2);
        let w2 = width(rest.take(k - 1));
        assert(ps.take(k) =~= seq![ps[0]] + rest.take(k - 1));
        lemma_width_concat(seq![ps[0]], rest.take(k - 1));
        assert(width(seq![ps[0]]) == ps[0].len() + 1) by {
            let e = Seq::<Seq<char>>::empty();
            assert(seq![ps[0]].drop_last() =~= e);
            assert(seq![ps[0]].last() == ps[0]);
            assert(width(e) == 0);
        }
        let w = width(ps.take(k));
        assert(w == ps[0].len() + 1 + w2);
        assert(rest[k - 1] == ps[k]);
        assert(j.subrange(w as int, (w + ps[k].len()) as int) =~= j2.subrange(w2 as int, (w2 + ps[k].len()) as int));
        if k > 1 {
            assert(j[w - 1] == j2[w2 - 1]);
        }
    }
}

/// The character index of a line is where that line starts in the text:
/// the line follows it, and a line feed precedes it unless it is the first.
pub proof fn law_line_start_is_start_of_line(text: Seq<char>, k: nat)
    requires
        k < split(text, seq!['\n']).len(),
    ensures
        line_start(text, k) + split(text, seq!['\n'])[k as int].len() <= text.len(),
        text.subrange(line_start(text, k) as int, (line_start(text, k) + split(text, seq!['\n'])[k as int].len()) as int)
            == split(text, seq!['\n'])[k as int],
        k > 0 ==> text[line_start(text, k) - 1] == '\n',
{
    lemma_join_split(text, seq!['\n']);
    lemma_piece_in_join(split(text, seq!['\n']), '\n', k as int);
}


// ---- numbers ----

/// A text of digits with a point somewhere among them or none: plain
/// decimal notation.
proof fn lemma_plain_decimal(m: Seq<char>, d: int)
    requires
        0 <= d <= m.len(),
        forall|j: int| 0 <= j < m.len() && j != d ==> '0' as u32 <= (#[trigger] m[j]) as u32 <= '9' as u32,
        d < m.len() ==> m[d] == '.',
        m.len() >= 1,
        d < m.len() ==> m.len() >= 2,
    ensures
        is_mantissa(m),
        forall|j: int| 0 <= j < m.len() ==> !(exp_pred())(#[trigger] m[j]),
        !is_sign(m[0]),
        is_float_literal(m),
        is_float_literal(seq!['-'] + m),
        is_float_literal(seq!['+'] + m),
{
    assert forall|j: int| 0 <= j < m.len() implies !(exp_pred())(#[trigger] m[j]) by {
        if j != d {
            assert('0' as u32 <= m[j] as u32 <= '9' as u32);
        }
    }
    lemma_first_where_is(m, exp_pred(), m.len() as int);
    assert forall|j: int| 0 <= j < d implies !(dot_pred())(#[trigger] m[j]) by {
        assert('0' as u32 <= m[j] as u32 <= '9' as u32);
    }
    lemma_first_where_is(m, dot_pred(), d);
    assert(all_digits(m.take(d))) by {
        assert forall|i: int| 0 <= i < m.take(d).len() implies crate::number::is_digit(#[trigger] m.take(d)[i]) by {
            assert(m.take(d)[i] == m[i]);
        }
    }
    if d < m.len() {
        assert(all_digits(m.skip(d + 1))) by {
            assert forall|i: int| 0 <= i < m.skip(d + 1).len() implies crate::number::is_digit(#[trigger] m.skip(d + 1)[i]) by {
                assert(m.skip(d + 1)[i] == m[i + d + 1]);
            }
        }
    } else {
        assert(m.take(d) =~= m);
    }
    assert(is_mantissa(m));
    assert(is_number(m));
    if d == 0 {
        assert(m[0] == '.');
    } else {
        assert('0' as u32 <= m[0] as u32 <= '9' as u32);
    }
    assert(!is_sign(m[0]));
    assert(unsigned_part(m) == m);
    assert((seq!['-'] + m).drop_first() =~= m);
    assert((seq!['+'] + m).drop_first() =~= m);
}

/// Every text of digits, and every text of digits with a decimal point
/// between two runs of digits (either run of any length, not both empty),
/// is read as a number, with or without a sign: there is no bound on the
/// number of digits before or after the point.
pub proof fn law_decimal_numbers_are_read(a: Seq<char>, b: Seq<char>)
    requires
        forall|i: int| 0 <= i < a.len() ==> '0' as u32 <= (#[trigger] a[i]) as u32 <= '9' as u32,
        forall|i: int| 0 <= i < b.len() ==> '0' as u32 <= (#[trigger] b[i]) as u32 <= '9' as u32,
    ensures
        a.len() > 0 ==> is_float_literal(a) && is_float_literal(seq!['-'] + a) && is_float_literal(seq!['+'] + a),
        a.len() + b.len() > 0 ==> {
            &&& is_float_literal(a + seq!['.'] + b)
            &&& is_float_literal(seq!['-'] + a + seq!['.'] + b)
            &&& is_float_literal(seq!['+'] + a + seq!['.'] + b)
        },
{
    if a.len() > 0 {
        lemma_plain_decimal(a, a.len() as int);
    }
    if a.len() + b.len() > 0 {
        let m = a + seq!['.'] + b;
        assert forall|j: int| 0 <= j < m.len() && j != a.len() implies '0' as u32 <= (#[trigger] m[j]) as u32 <= '9' as u32 by {
            if j < a.len() {
                assert(m[j] == a[j]);
            } else {
                assert(m[j] == b[j - a.len() - 1]);
            }
        }
        lemma_plain_decimal(m, a.len() as int);
        assert(seq!['-'] + a + seq!['.'] + b =~= seq!['-'] + m);
        assert(seq!['+'] + a + seq!['.'] + b =~= seq!['+'] + m);
    }
}

// ---- outlines ----

/// The outline of a ring joins every point in order; from three points on
/// it goes back to the first; below two points there is none. (`n` is a
/// count of points, so it fits in `usize`.)
pub proof fn law_outline_joins_every_point(n: nat)
    requires
        n <= usize::MAX,
    ensures
        n >= 3 ==> {
            &&& outline(n).len() == n + 1
            &&& forall|i: int| 0 <= i < n ==> #[trigger] outline(n)[i] == i
            &&& outline(n)[n as int] == 0
        },
        n == 2 ==> outline(n) == seq![0usize, 1usize],
        n < 2 ==> outline(n).len() == 0,
{
    if n >= 3 {
        assert forall|i: int| 0 <= i < n implies #[trigger] outline(n)[i] == i by {
            assert(outline(n)[i] == i as usize);
        }
    }
}

// ---- merging ----

proof fn lemma_tn_keeps_each(cs: Seq<Seq<char>>, k: int)
    requires
        0 <= k < cs.len(),
        trim(cs[k]).len() > 0,
    ensures
        trimmed_nonempty(cs).contains(trim(cs[k])),
    decreases cs.len(),
{
    let prev = cs.drop_last();
    let t = trimmed_nonempty(cs);
    if k == cs.len() - 1 {
        assert(t == trimmed_nonempty(prev) + seq![trim(cs.last())]);
        assert(t[t.len() - 1] == trim(cs[k]));
    } else {
        assert(prev[k] == cs[k]);
        lemma_tn_keeps_each(prev, k);
        let tp = trimmed_nonempty(prev);
        let i = choose|i: int| 0 <= i < tp.len() && tp[i] == trim(cs[k]);
        assert(t == tp + if trim(cs.last()).len() > 0 { seq![trim(cs.last())] } else { seq![] });
        assert(t[i] == tp[i]);
    }
}

proof fn lemma_tn_blank(cs: Seq<Seq<char>>)
    requires
        forall|k: int| 0 <= k < cs.len() ==> trim(#[trigger] cs[k]).len() == 0,
    ensures
        trimmed_nonempty(cs).len() == 0,
    decreases cs.len(),
{
    if cs.len() > 0 {
        assert(trim(cs[cs.len() - 1]).len() == 0);
        let prev = cs.drop_last();
        assert forall|k: int| 0 <= k < prev.len() implies trim(#[trigger] prev[k]).len() == 0 by {
            assert(prev[k] == cs[k]);
        }
        lemma_tn_blank(prev);
    }
}

/// Merging fails only when no file is selected or every file is blank; as
/// soon as one file holds something, the merge succeeds with the trimmed
/// contents of the files that hold something, each of them kept.
pub proof fn law_merge_fails_only_without_data(cs: Seq<Seq<char>>)
    ensures
        cs.len() == 0 ==> merged(cs) == Err::<Seq<char>, Seq<char>>(no_files_message()),
        (exists|k: int| 0 <= k < cs.len() && trim(#[trigger] cs[k]).len() > 0) ==> merged(cs) == Ok::<
            Seq<char>,
            Seq<char>,
        >(join(trimmed_nonempty(cs), merge_joint())),
        forall|k: int| 0 <= k < cs.len() && trim(#[trigger] cs[k]).len() > 0 ==> trimmed_nonempty(cs).contains(
            trim(cs[k]),
        ),
        cs.len() > 0 && (forall|k: int| 0 <= k < cs.len() ==> trim(#[trigger] cs[k]).len() == 0) ==> merged(cs)
            == Err::<Seq<char>, Seq<char>>(no_data_message()),
{
    assert forall|k: int| 0 <= k < cs.len() && trim(#[trigger] cs[k]).len() > 0 implies trimmed_nonempty(cs).contains(
        trim(cs[k]),
    ) by {
        lemma_tn_keeps_each(cs, k);
    }
    if exists|k: int| 0 <= k < cs.len() && trim(#[trigger] cs[k]).len() > 0 {
        let k = choose|k: int| 0 <= k < cs.len() && trim(#[trigger] cs[k]).len() > 0;
        lemma_tn_keeps_each(cs, k);
    }
    if cs.len() > 0 && (forall|k: int| 0 <= k < cs.len() ==> trim(#[trigger] cs[k]).len() == 0) {
        lemma_tn_blank(cs);
    }
}

// ---- status line ----

/// The status line names the single imported file by its path; for several
/// files it gives their number and, when they were merged, the name of
/// every file in order, separated by ", ".
pub proof fn law_status_names_every_file(files: Seq<ImportedFile>)
    ensures
        files.len() == 1 ==> import_status(files, true) == "Imported: "@ + files[0].display@
            && import_status(files, false) == "Imported: "@ + files[0].display@,
        files.len() != 1 ==> import_status(files, true) == "Imported "@ + decimal(files.len())
            + " files (merged with ===============): "@ + join(
            Seq::new(files.len(), |k: int| files[k].file_name@),
            ", "@,
        ),
        files.len() != 1 ==> import_status(files, false) == "Imported "@ + decimal(files.len()) + " files."@,
{
    reveal_strlit(" files (merged with ===============): ");
    reveal_strlit(" files (merged with ");
    reveal_strlit("): ");
    assert(file_names(files) =~= Seq::new(files.len(), |k: int| files[k].file_name@));
    assert(" files (merged with "@ + crate::parser::ring_separator() + "): "@ =~= " files (merged with ===============): "@);
    if files.len() != 1 {
        let p1 = "Imported "@ + decimal(files.len());
        let j = join(file_names(files), ", "@);
        assert(p1 + " files (merged with "@ + crate::parser::ring_separator() + "): "@ + j =~= p1 + (
        " files (merged with "@ + crate::parser::ring_separator() + "): "@) + j);
    }
}


/// A number in plain decimal notation followed by an exponent (`e` or `E`,
/// an optional sign, and digits of any count) is read as a number.
pub proof fn law_exponents_are_read(a: Seq<char>, b: Seq<char>, e: char, sign: Seq<char>, x: Seq<char>)
    requires
        forall|i: int| 0 <= i < a.len() ==> '0' as u32 <= (#[trigger] a[i]) as u32 <= '9' as u32,
        forall|i: int| 0 <= i < b.len() ==> '0' as u32 <= (#[trigger] b[i]) as u32 <= '9' as u32,
        forall|i: int| 0 <= i < x.len() ==> '0' as u32 <= (#[trigger] x[i]) as u32 <= '9' as u32,
        a.len() + b.len() > 0,
        x.len() > 0,
        e == 'e' || e == 'E',
        sign == Seq::<char>::empty() || sign == seq!['-'] || sign == seq!['+'],
    ensures
        is_float_literal(a + seq!['.'] + b + seq![e] + sign + x),
        a.len() > 0 ==> is_float_literal(a + seq![e] + sign + x),
{
    let t = sign + x;
    assert(is_exponent(t)) by {
        if sign.len() > 0 {
            assert(t[0] == sign[0]);
            assert(unsigned_part(t) =~= x);
        } else {
            assert(t =~= x);
            assert(!is_sign(x[0]));
            assert(unsigned_part(t) =~= x);
        }
        assert forall|i: int| 0 <= i < x.len() implies crate::number::is_digit(#[trigger] x[i]) by {
            assert('0' as u32 <= x[i] as u32 <= '9' as u32);
        }
    }
    let m1 = a + seq!['.'] + b;
    assert forall|j: int| 0 <= j < m1.len() && j != a.len() implies '0' as u32 <= (#[trigger] m1[j]) as u32 <= '9' as u32 by {
        if j < a.len() {
            assert(m1[j] == a[j]);
        } else {
            assert(m1[j] == b[j - a.len() - 1]);
        }
    }
    lemma_plain_decimal(m1, a.len() as int);
    lemma_with_exponent(m1, e, t);
    assert(a + seq!['.'] + b + seq![e] + sign + x =~= m1 + seq![e] + t);
    if a.len() > 0 {
        lemma_plain_decimal(a, a.len() as int);
        lemma_with_exponent(a, e, t);
        assert(a + seq![e] + sign + x =~= a + seq![e] + t);
    }
}

proof fn lemma_with_exponent(m: Seq<char>, e: char, t: Seq<char>)
    requires
        is_mantissa(m),
        m.len() > 0,
        forall|j: int| 0 <= j < m.len() ==> !(exp_pred())(#[trigger] m[j]),
        !is_sign(m[0]),
        e == 'e' || e == 'E',
        is_exponent(t),
    ensures
        is_float_literal(m + seq![e] + t),
{
    let n = m + seq![e] + t;
    assert forall|j: int| 0 <= j < m.len() implies !(exp_pred())(#[trigger] n[j]) by {
        assert(n[j] == m[j]);
    }
    assert(n[m.len() as int] == e);
    lemma_first_where_is(n, exp_pred(), m.len() as int);
    assert(n.take(m.len() as int) =~= m);
    assert(n.skip(m.len() as int + 1) =~= t);
    assert(n[0] == m[0]);
    assert(unsigned_part(n) == n);
}

// ---- decimal notation ----

/// The number that a text of decimal digits denotes.
pub open spec fn digits_value(s: Seq<char>) -> int
    decreases s.len(),
{
    if s.len() == 0 {
        0
    } else {
        digits_value(s.drop_last()) * 10 + (s.last() as u32 - '0' as u32)
    }
}

proof fn lemma_digit_char(d: nat)
    requires
        d < 10,
    ensures
        digit_char(d) as u32 == '0' as u32 + d,
{
}

/// The decimal notation of a count is made of digits, denotes the count,
/// and starts with no zero unless the count is zero.
pub proof fn law_decimal_notation(n: nat)
    ensures
        decimal(n).len() >= 1,
        forall|i: int| 0 <= i < decimal(n).len() ==> '0' as u32 <= (#[trigger] decimal(n)[i]) as u32 <= '9' as u32,
        digits_value(decimal(n)) == n,
        n > 0 ==> decimal(n)[0] != '0',
    decreases n,
{
    if n < 10 {
        lemma_digit_char(n);
        let s = decimal(n);
        assert(s == seq![digit_char(n)]);
        assert(s.drop_last() =~= Seq::<char>::empty());
        assert(digits_value(s.drop_last()) == 0);
        assert(s.last() == digit_char(n));
        assert(digits_value(s) == digits_value(s.drop_last()) * 10 + (s.last() as u32 - '0' as u32));
    } else {
        let q = n / 10;
        let r = n % 10;
        law_decimal_notation(q);
        lemma_digit_char(r);
        let s = decimal(n);
        assert(s == decimal(q).push(digit_char(r)));
        assert(s.drop_last() =~= decimal(q));
        assert(s[0] == decimal(q)[0]);
        assert forall|i: int| 0 <= i < s.len() implies '0' as u32 <= (#[trigger] s[i]) as u32 <= '9' as u32 by {
            if i < decimal(q).len() {
                assert(s[i] == decimal(q)[i]);
            }
        }
        assert(s.last() == digit_char(r));
        assert(digits_value(s) == digits_value(s.drop_last()) * 10 + (s.last() as u32 - '0' as u32));
        assert(digits_value(s) == q * 10 + r);
        assert(q * 10 + r == n);
    }
}

// ---- fields of a line ----

/// A field of a line: text with no value separator.
pub open spec fn plain_field(x: Seq<char>) -> bool {
    forall|i: int| 0 <= i < x.len() ==> #[trigger] x[i] != ',' && x[i] != ';' && !is_ws(x[i])
}

/// A line is read field by field: the fields are the texts between commas,
/// semicolons and whitespace, and a field is kept when it reads as a number.
pub proof fn law_fields_are_read(x: Seq<char>, c: char, y: Seq<char>)
    requires
        plain_field(x),
        c == ',' || c == ';' || is_ws(c),
    ensures
        numeric_tokens(x + seq![c] + y) == (if is_float_literal(x) {
            seq![x]
        } else {
            Seq::<Seq<char>>::empty()
        }) + numeric_tokens(y),
        x.len() > 0 ==> numeric_tokens(x) == if is_float_literal(x) {
            seq![x]
        } else {
            Seq::<Seq<char>>::empty()
        },
{
    let s = x + seq![c] + y;
    assert forall|j: int| 0 <= j < x.len() implies !(field_sep_pred())(#[trigger] s[j]) by {
        assert(s[j] == x[j]);
    }
    assert(s[x.len() as int] == c);
    lemma_first_where_is(s, field_sep_pred(), x.len() as int);
    assert(s.take(x.len() as int) =~= x);
    assert(s.skip(x.len() as int + 1) =~= y);
    if x.len() > 0 {
        assert forall|j: int| 0 <= j < x.len() implies !(field_sep_pred())(#[trigger] x[j]) by {
        }
        lemma_first_where_is(x, field_sep_pred(), x.len() as int);
        assert(x.take(x.len() as int) =~= x);
    }
}

/// Two numbers, or three, separated by a space are the coordinates of a
/// point in 2D, or in 3D.
pub proof fn law_numbers_make_a_point(x: Seq<char>, y: Seq<char>, z: Seq<char>)
    requires
        plain_field(x),
        plain_field(y),
        plain_field(z),
        is_float_literal(x),
        is_float_literal(y),
        is_float_literal(z),
        y.len() > 0,
        z.len() > 0,
    ensures
        point_fields(x + seq![' '] + y, 2) == Some(seq![x, y]),
        point_fields(x + seq![' '] + y + seq![' '] + z, 3) == Some(seq![x, y, z]),
        point_fields(x + seq![' '] + y + seq![' '] + z, 2) == Some(seq![x, y]),
{
    law_fields_are_read(x, ' ', y);
    law_fields_are_read(y, ' ', z);
    law_fields_are_read(z, ' ', Seq::<char>::empty());
    law_fields_are_read(x, ' ', y + seq![' '] + z);
    assert(x + seq![' '] + y + seq![' '] + z =~= x + seq![' '] + (y + seq![' '] + z));
    let t2 = numeric_tokens(x + seq![' '] + y);
    assert(t2 =~= seq![x, y]);
    assert(t2.take(2) =~= t2);
    let t3 = numeric_tokens(x + seq![' '] + (y + seq![' '] + z));
    assert(t3 =~= seq![x, y, z]);
    assert(t3.take(3) =~= t3);
    assert(t3.take(2) =~= seq![x, y]);
}

// ---- colours ----

/// The rings take eight colours in turn, all different.
pub proof fn law_palette_has_eight_distinct_colours(i: nat, j: nat)
    ensures
        i < 8 && j < 8 && i != j ==> palette(i) != palette(j),
{
}


// ---- messages ----

/// A line that holds text but no point of `dims` coordinates.
pub open spec fn holds_no_point(l: Seq<char>, dims: nat) -> bool {
    line_content(l).len() > 0 && point_fields(line_content(l), dims) is None
}

/// The message for line `line_no` of ring `ring_no`.
pub open spec fn message_for(ring_no: nat, line_no: nat) -> Seq<char> {
    "Ring "@ + decimal(ring_no) + " line "@ + decimal(line_no)
        + ": invalid coordinates; use 'lon lat' or 'lon lat altitude'"@
}

proof fn lemma_message_text(ring_no: nat, line_no: nat)
    ensures
        error_message(ring_no, line_no) == message_for(ring_no, line_no),
{
    reveal_strlit(": ");
    reveal_strlit("invalid coordinates; use 'lon lat' or 'lon lat altitude'");
    reveal_strlit(": invalid coordinates; use 'lon lat' or 'lon lat altitude'");
    let p = "Ring "@ + decimal(ring_no) + " line "@ + decimal(line_no);
    assert(": "@ + "invalid coordinates; use 'lon lat' or 'lon lat altitude'"@
        =~= ": invalid coordinates; use 'lon lat' or 'lon lat altitude'"@);
    assert(p + ": "@ + "invalid coordinates; use 'lon lat' or 'lon lat altitude'"@ =~= p + (": "@
        + "invalid coordinates; use 'lon lat' or 'lon lat altitude'"@));
}

proof fn lemma_block_messages(ls: Seq<Seq<char>>, dims: nat, n: nat)
    ensures
        forall|i: int| 0 <= i < ls.len() && holds_no_point(#[trigger] ls[i], dims) ==> block_errors(
            ls,
            dims,
            n,
        ).contains(message_for(n, (i + 1) as nat)),
        block_errors(ls, dims, n).len() == lines_without_point(ls, dims),
    decreases ls.len(),
{
    if ls.len() > 0 {
        let prev = ls.drop_last();
        lemma_block_messages(prev, dims, n);
        lemma_message_text(n, ls.len());
        let pe = block_errors(prev, dims, n);
        let be = block_errors(ls, dims, n);
        if holds_no_point(ls.last(), dims) {
            assert(be == pe + seq![error_message(n, ls.len())]);
        } else {
            assert(be =~= pe);
        }
        assert forall|i: int| 0 <= i < ls.len() && holds_no_point(#[trigger] ls[i], dims) implies be.contains(
            message_for(n, (i + 1) as nat),
        ) by {
            if i < prev.len() {
                assert(prev[i] == ls[i]);
                assert(pe.contains(message_for(n, (i + 1) as nat)));
                let q = choose|q: int| 0 <= q < pe.len() && pe[q] == message_for(n, (i + 1) as nat);
                assert(be[q] == pe[q]);
            } else {
                assert(be[be.len() - 1] == message_for(n, (i + 1) as nat));
            }
        }
    }
}

proof fn lemma_lines_have_messages(bs: Seq<Seq<char>>, dims: nat)
    ensures
        forall|k: int, i: int|
            0 <= k < bs.len() && 0 <= i < lines(bs[k]).len() && holds_no_point(#[trigger] lines(bs[k])[i], dims)
                ==> parse_errors(bs, dims).contains(message_for((k + 1) as nat, (i + 1) as nat)),
    decreases bs.len(),
{
    if bs.len() > 0 {
        let prev = bs.drop_last();
        lemma_lines_have_messages(prev, dims);
        let ls = lines(bs.last());
        lemma_block_messages(ls, dims, bs.len());
        let pp = parse_errors(prev, dims);
        let be = block_errors(ls, dims, bs.len());
        let pe = parse_errors(bs, dims);
        assert(pe == pp + be);
        assert forall|k: int, i: int|
            0 <= k < bs.len() && 0 <= i < lines(bs[k]).len() && holds_no_point(#[trigger] lines(bs[k])[i], dims)
                implies pe.contains(message_for((k + 1) as nat, (i + 1) as nat)) by {
            if k < prev.len() {
                assert(prev[k] == bs[k]);
                assert(pp.contains(message_for((k + 1) as nat, (i + 1) as nat)));
                let q = choose|q: int| 0 <= q < pp.len() && pp[q] == message_for((k + 1) as nat, (i + 1) as nat);
                assert(pe[q] == pp[q]);
            } else {
                assert(bs[k] == bs.last());
                assert(ls[i] == lines(bs[k])[i]);
                assert(be.contains(message_for(bs.len(), (i + 1) as nat)));
                let q = choose|q: int| 0 <= q < be.len() && be[q] == message_for(bs.len(), (i + 1) as nat);
                assert(pe[pp.len() + q] == be[q]);
            }
        }
    }
}

/// The number of lines of `ls` that hold text but no point.
pub open spec fn lines_without_point(ls: Seq<Seq<char>>, dims: nat) -> nat
    decreases ls.len(),
{
    if ls.len() == 0 {
        0
    } else {
        lines_without_point(ls.drop_last(), dims) + if holds_no_point(ls.last(), dims) {
            1nat
        } else {
            0nat
        }
    }
}

/// The number of lines of all ring texts `bs` that hold text but no point.
pub open spec fn all_lines_without_point(bs: Seq<Seq<char>>, dims: nat) -> nat
    decreases bs.len(),
{
    if bs.len() == 0 {
        0
    } else {
        all_lines_without_point(bs.drop_last(), dims) + lines_without_point(lines(bs.last()), dims)
    }
}

/// There is one message for each line that holds text but no point, and no
/// other. With `bs` the ring texts of an input, these are the messages of
/// `parse_2d` (`dims` 2) and `parse_3d` (`dims` 3).
pub proof fn law_one_message_per_line_without_point(bs: Seq<Seq<char>>, dims: nat)
    ensures
        parse_errors(bs, dims).len() == all_lines_without_point(bs, dims),
    decreases bs.len(),
{
    if bs.len() > 0 {
        law_one_message_per_line_without_point(bs.drop_last(), dims);
        lemma_block_messages(lines(bs.last()), dims, bs.len());
    }
}

/// Every line that holds text but no point has its message, naming its
/// ring and its line, both numbered from 1.
pub proof fn law_lines_without_point_have_messages(bs: Seq<Seq<char>>, dims: nat)
    ensures
        forall|k: int, i: int|
            0 <= k < bs.len() && 0 <= i < lines(bs[k]).len() && holds_no_point(#[trigger] lines(bs[k])[i], dims)
                ==> parse_errors(bs, dims).contains(message_for((k + 1) as nat, (i + 1) as nat)),
{
    lemma_lines_have_messages(bs, dims);
}


// ---- comments and trimming ----

/// A comment starts at the first `#` of a line, or, on a line without `#`,
/// at the first `//`; what is read of the line is all that comes before.
pub proof fn law_comment_starts_at_first_mark(line: Seq<char>)
    ensures
        ({
            let w = without_comment(line);
            &&& w == line.take(w.len() as int)
            &&& forall|i: int| 0 <= i < w.len() ==> #[trigger] w[i] != '#'
            &&& (forall|i: int| 0 <= i < line.len() ==> #[trigger] line[i] != '#') ==> forall|i: int|
                0 <= i < w.len() - 1 ==> !(#[trigger] w[i] == '/' && w[i + 1] == '/')
            &&& w.len() < line.len() ==> (line[w.len() as int] == '#' || (line[w.len() as int] == '/'
                && w.len() + 1 < line.len() && line[w.len() as int + 1] == '/' && forall|i: int|
                0 <= i < line.len() ==> #[trigger] line[i] != '#'))
        }),
{
    let hash = seq!['#'];
    let slashes = seq!['/', '/'];
    crate::line_laws::lemma_without_comment_prefix(line);
    lemma_find(line, hash);
    lemma_find(line, slashes);
    let w = without_comment(line);
    match find(line, hash) {
        Some(c) => {
            assert(line.subrange(c, c + 1)[0] == line[c]);
            assert(w.len() == c);
            assert forall|i: int| 0 <= i < w.len() implies #[trigger] w[i] != '#' by {
                assert(i < line.len());
                assert(!match_at(line, i, hash));
                assert(line.subrange(i, i + 1) =~= seq![line[i]]);
                assert(w[i] == line[i]);
            }
        },
        None => {
            assert forall|i: int| 0 <= i < line.len() implies #[trigger] line[i] != '#' by {
                assert(!match_at(line, i, hash));
                assert(line.subrange(i, i + 1) =~= seq![line[i]]);
            }
            assert forall|i: int| 0 <= i < w.len() implies #[trigger] w[i] != '#' by {
                assert(i < line.len());
                assert(w[i] == line[i]);
                assert(!match_at(line, i, hash));
                assert(line.subrange(i, i + 1) =~= seq![line[i]]);
            }
            assert forall|i: int| 0 <= i < w.len() - 1 implies !(#[trigger] w[i] == '/' && w[i + 1] == '/') by {
                assert(i + 1 < line.len());
                assert(w[i] == line[i]);
                assert(w[i + 1] == line[i + 1]);
                match find(line, slashes) {
                    Some(c) => {
                        assert(w.len() == c);
                        assert(!match_at(line, i, slashes));
                    },
                    None => {
                        assert(!match_at(line, i, slashes));
                    },
                }
                if line[i] == '/' && line[i + 1] == '/' {
                    assert(line.subrange(i, i + 2) =~= slashes);
                }
            }
            match find(line, slashes) {
                Some(c) => {
                    assert(line.subrange(c, c + 2)[0] == line[c]);
                    assert(line.subrange(c, c + 2)[1] == line[c + 1]);
                },
                None => {},
            }
        },
    }
}

/// Trimming keeps a slice of the text that starts and ends with no
/// whitespace, and drops only whitespace before and after it.
pub proof fn law_trim_drops_only_outer_whitespace(s: Seq<char>)
    ensures
        ({
            let t = trim(s);
            &&& exists|i: int| 0 <= i && i + t.len() <= s.len() && #[trigger] s.subrange(i, i + t.len()) == t
                && (forall|j: int| 0 <= j < i ==> is_ws(#[trigger] s[j])) && (forall|j: int|
                i + t.len() <= j < s.len() ==> is_ws(#[trigger] s[j]))
            &&& t.len() > 0 ==> !is_ws(t[0]) && !is_ws(t.last())
        }),
{
    let i = crate::line_laws::lemma_trim_bounds(s);
    let t = trim(s);
    assert(s.subrange(i, i + t.len()) == t);
    lemma_trim_start_first_char(s);
    lemma_trim_end_last_char(trim_start(s));
    if t.len() > 0 {
        lemma_trim_end_prefix(trim_start(s));
        assert(t[0] == trim_start(s)[0]);
    }
}

proof fn lemma_trim_start_first_char(s: Seq<char>)
    ensures
        trim_start(s).len() > 0 ==> !is_ws(trim_start(s)[0]),
    decreases s.len(),
{
    if s.len() > 0 && is_ws(s[0]) {
        lemma_trim_start_first_char(s.drop_first());
    }
}

proof fn lemma_trim_end_last_char(s: Seq<char>)
    ensures
        trim_end(s).len() > 0 ==> !is_ws(trim_end(s).last()),
    decreases s.len(),
{
    if s.len() > 0 && is_ws(s.last()) {
        lemma_trim_end_last_char(s.drop_last());
    }
}

proof fn lemma_trim_end_prefix(s: Seq<char>)
    ensures
        trim_end(s).len() <= s.len(),
        trim_end(s) == s.take(trim_end(s).len() as int),
    decreases s.len(),
{
    if s.len() > 0 && is_ws(s.last()) {
        lemma_trim_end_prefix(s.drop_last());
        assert(s.drop_last().take(trim_end(s).len() as int) =~= s.take(trim_end(s).len() as int));
    } else {
        assert(s.take(s.len() as int) =~= s);
    }
}

} // verus!
