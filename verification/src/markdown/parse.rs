//! The block parser: one step per block, driven over the lines of the body.
use vstd::prelude::*;
use crate::text::{
    chars_of, contains_seq, find_next, index_of_in, is_whitespace, is_ws,
    lemma_find_after, lemma_index_of, next_ws_exec, push_char,
    region_starts_with, skip_ws_exec, starts_with, string_of, sub_chars,
    to_ascii_lower_char, trim_end_exec, trim_ws, trimmed, run_end_exec,
};
use super::inline::{
    InlineView, Pats, char_is_alphanumeric, iviews,
    lemma_iviews_concat, offsets_of, opt_text, parse_inlines,
};
use super::block::{
    BlockView, FootView, ItemView, Step, block_step, blocks_from, callout_of, comment_end,
    comment_step, fence_close, fence_step, first_word, footnote_of, footnotes_of, fview,
    fviews, heading_of, heading_step, is_break, item_views, lemma_bviews_push,
    lemma_item_views_push, lemma_line_vec_bounds, line_text, line_views,
    list_items, list_marker, list_step, md_lines, para_end, para_step, pipe_back, pipe_line, quote_end, quote_inlines, quote_step,
    slug_chars, slugify, split_cells, strs, table_cells, table_end, table_rows, table_step,
    task_state, trim_pipes, bview, bviews, rows_view, digit_run, hashes, lemma_ends,
    lemma_list_items, lemma_block_step, lines_exec, newline_after_exec, newline_before_exec,
};
use super::{Block, Footnote, Inline, ListItem, Span};

verus! {

/// The lines of the body, with their bounds and order.
pub open spec fn lines_ok(cs: Seq<char>, lines: Seq<(usize, usize)>, body: int) -> bool {
    &&& 0 <= body <= cs.len()
    &&& line_views(lines) == md_lines(cs, body, cs.len() as int)
    &&& forall|j: int| 0 <= j < lines.len() ==> body <= #[trigger] lines[j].0 <= lines[j].1 <= cs.len() && lines[j].0 < cs.len()
    &&& forall|j: int, k: int| 0 <= j < k < lines.len() ==> #[trigger] lines[j].1 <= #[trigger] lines[k].0
}

pub proof fn lemma_lines_ok(cs: Seq<char>, lines: Seq<(usize, usize)>, body: int)
    requires
        0 <= body <= cs.len(),
        line_views(lines) == md_lines(cs, body, cs.len() as int),
    ensures
        lines_ok(cs, lines, body),
{
    lemma_line_vec_bounds(lines, cs, body, cs.len() as int);
}

pub proof fn lemma_line_index(lines: Seq<(usize, usize)>, k: int)
    requires
        0 <= k < lines.len(),
    ensures
        line_views(lines)[k] == (lines[k].0 as int, lines[k].1 as int),
        line_views(lines).len() == lines.len(),
{
}

/// Whether characters `p..ce` are blank.
fn is_blank(cs: &Vec<char>, p: usize, ce: usize) -> (r: bool)
    requires
        p <= ce <= cs@.len(),
    ensures
        r == (trim_ws(cs@.subrange(p as int, ce as int)).len() == 0),
{
    let t = sub_chars(cs, p, ce);
    let tr = trimmed(&t, 0, t.len());
    proof {
        assert(t@.subrange(0, t@.len() as int) =~= t@);
    }
    tr.as_str().is_empty()
}

/// Whether characters `p..ce` contain `pat`.
fn region_contains(cs: &Vec<char>, p: usize, ce: usize, pat: &Vec<char>) -> (r: bool)
    requires
        p <= ce <= cs@.len(),
    ensures
        r == contains_seq(cs@.subrange(p as int, ce as int), pat@),
{
    let t = sub_chars(cs, p, ce);
    let found = find_next(&t, 0, pat);
    proof {
        lemma_find_after(t@, 0, pat@);
        if found is None {
            assert forall|k: int| !#[trigger] crate::text::match_at(t@, k, pat@) by {
                if k < 0 {
                }
            }
        }
    }
    found.is_some()
}

/// The slug of a heading text.
fn slugify_exec(text: &String) -> (r: String)
    ensures
        r@ == slugify(text@),
{
    let cs = chars_of(text.as_str());
    let tr = trimmed(&cs, 0, cs.len());
    proof {
        assert(cs@.subrange(0, cs@.len() as int) =~= cs@);
    }
    let u = chars_of(tr.as_str());
    let mut out = String::new();
    let mut k: usize = 0;
    proof {
        assert(u@.skip(0) =~= u@);
    }
    while k < u.len()
        invariant
            k <= u@.len(),
            u@ == trim_ws(text@),
            out@ + slug_chars(u@.skip(k as int)) == slugify(text@),
        decreases u@.len() - k,
    {
        let c = u[k];
        let ghost before = out@;
        proof {
            assert(u@.skip(k as int)[0] == c);
            assert(u@.skip(k as int).drop_first() =~= u@.skip(k + 1));
        }
        if is_whitespace(c) {
            push_char(&mut out, '-');
        } else if char_is_alphanumeric(c) || c == '-' {
            push_char(&mut out, to_ascii_lower_char(c));
        }
        proof {
            assert(out@ + slug_chars(u@.skip(k + 1)) =~= before + slug_chars(u@.skip(k as int)));
        }
        k = k + 1;
    }
    proof {
        assert(u@.skip(k as int) =~= Seq::<char>::empty());
        assert(out@ =~= slugify(text@));
    }
    out
}

/// The first whitespace-separated word of characters `x..y`.
fn first_word_exec(cs: &Vec<char>, x: usize, y: usize) -> (r: Option<String>)
    requires
        x <= y <= cs@.len(),
    ensures
        opt_text(r) == first_word(cs@.subrange(x as int, y as int)),
{
    let t = sub_chars(cs, x, y);
    let n = t.len();
    let a = skip_ws_exec(&t, 0, n);
    if a >= n {
        None
    } else {
        let e = next_ws_exec(&t, a, n);
        Some(string_of(&t, a, e))
    }
}

/// The callout header of characters `x..y`.
fn callout_exec(cs: &Vec<char>, x: usize, y: usize) -> (r: Option<(String, Option<String>, Option<bool>)>)
    requires
        x <= y <= cs@.len(),
    ensures
        match r {
            Some((k, t, f)) => callout_of(cs@.subrange(x as int, y as int)) == Some((k@, opt_text(t), f)),
            None => callout_of(cs@.subrange(x as int, y as int)) is None,
        },
{
    let t = sub_chars(cs, x, y);
    let n = t.len();
    let open = chars_of("[!");
    proof {
        reveal_strlit("[!");
        assert(open@ =~= seq!['[', '!']);
        assert(t@.subrange(0, n as int) =~= t@);
    }
    if !region_starts_with(&t, 0, n, &open) {
        return None;
    }
    match index_of_in(&t, 0, n, ']') {
        None => None,
        Some(end) => {
            proof {
                assert(t@.take(2)[0] == t@[0]);
                assert(t@.take(2)[1] == t@[1]);
                lemma_index_of(t@, ']');
                assert(end >= 2);
            }
            let (kind, fold) = if end > 2 && t[end - 1] == '+' {
                (string_of(&t, 2, end - 1), Some(true))
            } else if end > 2 && t[end - 1] == '-' {
                (string_of(&t, 2, end - 1), Some(false))
            } else {
                (string_of(&t, 2, end), None)
            };
            proof {
                if end > 2 {
                    assert(t@.subrange(2, end as int).drop_last() =~= t@.subrange(2, end - 1));
                }
            }
            let title = trimmed(&t, end + 1, n);
            proof {
                assert(t@.skip(end + 1) =~= t@.subrange(end + 1, n as int));
            }
            if title.as_str().is_empty() {
                Some((kind, None, fold))
            } else {
                Some((kind, Some(title), fold))
            }
        },
    }
}

/// A footnote definition on the line `p..ce`.
fn footnote_exec(cs: &Vec<char>, offs: &Vec<usize>, p: usize, ce: usize) -> (r: Option<Footnote>)
    requires
        p <= ce <= cs@.len(),
        offsets_of(offs@, cs@),
    ensures
        match r {
            Some(f) => footnote_of(cs@, p as int, ce as int) == Some(fview(f)),
            None => footnote_of(cs@, p as int, ce as int) is None,
        },
{
    let t = sub_chars(cs, p, ce);
    let n = t.len();
    let open = chars_of("[^");
    let sep = chars_of("]: ");
    proof {
        reveal_strlit("[^");
        reveal_strlit("]: ");
        assert(open@ =~= seq!['[', '^']);
        assert(sep@ =~= seq![']', ':', ' ']);
        assert(t@.subrange(0, n as int) =~= t@);
    }
    if !region_starts_with(&t, 0, n, &open) {
        return None;
    }
    match find_next(&t, 2, &sep) {
        None => None,
        Some(k) => {
            proof {
                lemma_find_after(t@, 2, sep@);
            }
            if !valid_label_chars(&t, 2, k) {
                return None;
            }
            let label = string_of(&t, 2, k);
            let definition = string_of(&t, k + 3, n);
            proof {
                assert(t@.skip(k + 3) =~= t@.subrange(k + 3, n as int));
            }
            Some(Footnote { label, definition, span: Span { start: offs[p], end: offs[ce] } })
        },
    }
}

fn valid_label_chars(t: &Vec<char>, x: usize, y: usize) -> (r: bool)
    requires
        x <= y <= t@.len(),
    ensures
        r == super::inline::valid_label(t@.subrange(x as int, y as int)),
{
    let ghost u = t@.subrange(x as int, y as int);
    if x == y {
        return false;
    }
    let mut k = x;
    while k < y
        invariant
            x <= k <= y <= t@.len(),
            u == t@.subrange(x as int, y as int),
            forall|j: int| 0 <= j < k - x ==> !is_ws(#[trigger] u[j]) && u[j] != ']',
        decreases y - k,
    {
        if is_whitespace(t[k]) || t[k] == ']' {
            proof {
                assert(u[k - x] == t@[k as int]);
            }
            return false;
        }
        k = k + 1;
    }
    true
}

/// The footnote definitions of the given lines.
fn footnotes_exec(cs: &Vec<char>, offs: &Vec<usize>, lines: &Vec<(usize, usize)>) -> (r: Vec<Footnote>)
    requires
        offsets_of(offs@, cs@),
        forall|k: int| 0 <= k < lines@.len() ==> #[trigger] lines@[k].0 <= lines@[k].1 <= cs@.len(),
    ensures
        fviews(r@) == footnotes_of(cs@, line_views(lines@)),
{
    let ghost l = line_views(lines@);
    let mut out: Vec<Footnote> = Vec::new();
    let mut k: usize = 0;
    proof {
        assert(l.skip(0) =~= l);
        assert(fviews(out@) =~= Seq::<FootView>::empty());
    }
    while k < lines.len()
        invariant
            k <= lines@.len(),
            l == line_views(lines@),
            offsets_of(offs@, cs@),
            forall|j: int| 0 <= j < lines@.len() ==> #[trigger] lines@[j].0 <= lines@[j].1 <= cs@.len(),
            fviews(out@) + footnotes_of(cs@, l.skip(k as int)) == footnotes_of(cs@, l),
        decreases lines@.len() - k,
    {
        let (p, ce) = lines[k];
        let ghost before = fviews(out@);
        proof {
            assert(l.skip(k as int)[0] == (p as int, ce as int));
            assert(l.skip(k as int).drop_first() =~= l.skip(k + 1));
        }
        match footnote_exec(cs, offs, p, ce) {
            Some(f) => {
                out.push(f);
                proof {
                    assert(fviews(out@) =~= before.push(fview(f)));
                }
            },
            None => {},
        }
        proof {
            assert(fviews(out@) + footnotes_of(cs@, l.skip(k + 1)) =~= before + footnotes_of(cs@, l.skip(k as int)));
        }
        k = k + 1;
    }
    proof {
        assert(l.skip(k as int) =~= Seq::<(int, int)>::empty());
        assert(fviews(out@) =~= footnotes_of(cs@, l));
    }
    out
}

/// The cells of the table row `p..ce`.
fn table_cells_exec(cs: &Vec<char>, p: usize, ce: usize) -> (r: Vec<String>)
    requires
        p <= ce <= cs@.len(),
    ensures
        strs(r@) == table_cells(cs@.subrange(p as int, ce as int)),
{
    let t = sub_chars(cs, p, ce);
    let tr = trimmed(&t, 0, t.len());
    proof {
        assert(t@.subrange(0, t@.len() as int) =~= t@);
    }
    let u = chars_of(tr.as_str());
    let n = u.len();
    let a = run_end_exec(&u, n, '|', 0);
    let mut e = n;
    while e > a && u[e - 1] == '|'
        invariant
            a <= e <= n == u@.len(),
            pipe_back(u@, a as int, e as int) == pipe_back(u@, a as int, n as int),
        decreases e,
    {
        e = e - 1;
    }
    let v = sub_chars(&u, a, e);
    let m = v.len();
    let ghost w = v@;
    let mut out: Vec<String> = Vec::new();
    let mut x: usize = 0;
    proof {
        assert(w.skip(0) =~= w);
        assert(strs(out@) =~= Seq::<Seq<char>>::empty());
    }
    loop
        invariant
            x <= m == w.len(),
            w == v@,
            w == trim_pipes(trim_ws(cs@.subrange(p as int, ce as int))),
            strs(out@) + split_cells(w.skip(x as int)) == split_cells(w),
        decreases m - x,
    {
        let ghost before = strs(out@);
        let ghost rest = w.skip(x as int);
        match index_of_in(&v, x, m, '|') {
            Some(k) => {
                proof {
                    assert(w.subrange(x as int, m as int) =~= rest);
                    lemma_index_of(rest, '|');
                    assert(rest.take(k - x) =~= w.subrange(x as int, k as int));
                    assert(rest.skip(k - x + 1) =~= w.skip(k + 1));
                }
                out.push(trimmed(&v, x, k));
                proof {
                    assert(strs(out@) =~= before.push(trim_ws(w.subrange(x as int, k as int))));
                    assert(strs(out@) + split_cells(w.skip(k + 1)) =~= before + split_cells(rest));
                }
                x = k + 1;
            },
            None => {
                proof {
                    assert(w.subrange(x as int, m as int) =~= rest);
                }
                out.push(trimmed(&v, x, m));
                proof {
                    assert(strs(out@) =~= before + split_cells(rest));
                }
                return out;
            },
        }
    }
}

/// Whether the trimmed line `p..ce` is a thematic break.
fn is_break_exec(cs: &Vec<char>, p: usize, ce: usize) -> (r: bool)
    requires
        p <= ce <= cs@.len(),
    ensures
        r == is_break(trim_ws(cs@.subrange(p as int, ce as int))),
{
    let t = sub_chars(cs, p, ce);
    let tr = trimmed(&t, 0, t.len());
    proof {
        assert(t@.subrange(0, t@.len() as int) =~= t@);
    }
    let u = chars_of(tr.as_str());
    if u.len() < 3 {
        return false;
    }
    let mut k: usize = 0;
    while k < u.len()
        invariant
            k <= u@.len(),
            p <= ce <= cs@.len(),
            u@ == trim_ws(cs@.subrange(p as int, ce as int)),
            forall|j: int| 0 <= j < k ==> #[trigger] u@[j] == '-' || u@[j] == '*' || u@[j] == '_',
        decreases u@.len() - k,
    {
        if !(u[k] == '-' || u[k] == '*' || u[k] == '_') {
            proof {
                assert(u@ == trim_ws(cs@.subrange(p as int, ce as int)));
                assert(!(u@[k as int] == '-' || u@[k as int] == '*' || u@[k as int] == '_'));
            }
            return false;
        }
        k = k + 1;
    }
    true
}

} // verus!

verus! {

/// The lines' bounds and order.
pub open spec fn lines_wf(cs: Seq<char>, lines: Seq<(usize, usize)>) -> bool {
    &&& forall|j: int| 0 <= j < lines.len() ==> #[trigger] lines[j].0 <= lines[j].1 <= cs.len() && lines[j].0 < cs.len()
    &&& forall|j: int, k: int| 0 <= j < k < lines.len() ==> #[trigger] lines[j].1 <= #[trigger] lines[k].0
}

/// The result of a block step, as the block parser's spec states it.
pub open spec fn step_is(st: Step, b: Block, notes: Seq<Footnote>, next: usize) -> bool {
    &&& st.block == Some(bview(b))
    &&& st.notes == fviews(notes)
    &&& st.next == next as int
}

pub proof fn lemma_fviews_empty()
    ensures
        fviews(Seq::<Footnote>::empty()) == Seq::<FootView>::empty(),
{
    assert(fviews(Seq::<Footnote>::empty()) =~= Seq::<FootView>::empty());
}

fn comment_close(cs: &Vec<char>, lines: &Vec<(usize, usize)>, i: usize, close: &Vec<char>) -> (r: usize)
    requires
        lines_wf(cs@, lines@),
        i < lines@.len(),
        close@ == seq!['-', '-', '>'],
    ensures
        r == comment_end(cs@, line_views(lines@), i as int),
{
    let ghost l = line_views(lines@);
    let mut j = i;
    while j < lines.len()
        invariant
            i <= j <= lines@.len(),
            l == line_views(lines@),
            lines_wf(cs@, lines@),
            close@ == seq!['-', '-', '>'],
            comment_end(cs@, l, j as int) == comment_end(cs@, l, i as int),
        decreases lines@.len() - j,
    {
        let (p, ce) = lines[j];
        proof {
            lemma_line_index(lines@, j as int);
        }
        if region_contains(cs, p, ce, close) {
            return j + 1;
        }
        j = j + 1;
    }
    lines.len()
}

fn comment_exec(cs: &Vec<char>, offs: &Vec<usize>, lines: &Vec<(usize, usize)>, i: usize) -> (r: (Block, usize))
    requires
        lines_wf(cs@, lines@),
        offsets_of(offs@, cs@),
        i < lines@.len(),
    ensures
        step_is(comment_step(cs@, line_views(lines@), i as int), r.0, Seq::empty(), r.1),
{
    proof {
        reveal(comment_step);
    }
    let ghost l = line_views(lines@);
    let close = chars_of("-->");
    proof {
        reveal_strlit("-->");
        assert(close@ =~= seq!['-', '-', '>']);
        lemma_ends(cs@, l, i as int, close@);
        lemma_fviews_empty();
    }
    let end = comment_close(cs, lines, i, &close);
    proof {
        lemma_line_index(lines@, i as int);
        lemma_line_index(lines@, end - 1);
    }
    let a = lines[i].0;
    let b = lines[end - 1].1;
    (Block::Comment { value: string_of(cs, a, b), span: Span { start: offs[a], end: offs[b] } }, end)
}

fn fence_close_exec(cs: &Vec<char>, lines: &Vec<(usize, usize)>, k0: usize, marker: &Vec<char>) -> (r: usize)
    requires
        lines_wf(cs@, lines@),
        k0 <= lines@.len(),
    ensures
        r == fence_close(cs@, line_views(lines@), k0 as int, marker@),
        k0 <= r <= lines@.len(),
{
    let ghost l = line_views(lines@);
    proof {
        lemma_ends(cs@, l, k0 as int, marker@);
    }
    let mut j = k0;
    while j < lines.len()
        invariant
            k0 <= j <= lines@.len(),
            l == line_views(lines@),
            lines_wf(cs@, lines@),
            fence_close(cs@, l, j as int, marker@) == fence_close(cs@, l, k0 as int, marker@),
        decreases lines@.len() - j,
    {
        let (p, ce) = lines[j];
        proof {
            lemma_line_index(lines@, j as int);
        }
        if region_starts_with(cs, p, ce, marker) {
            return j;
        }
        j = j + 1;
    }
    lines.len()
}

fn fence_exec(cs: &Vec<char>, offs: &Vec<usize>, lines: &Vec<(usize, usize)>, i: usize) -> (r: (Block, usize))
    requires
        lines_wf(cs@, lines@),
        offsets_of(offs@, cs@),
        i < lines@.len(),
        ({
            let t = line_text(cs@, line_views(lines@), i as int);
            starts_with(t, seq!['`', '`', '`']) || starts_with(t, seq!['~', '~', '~'])
        }),
    ensures
        step_is(fence_step(cs@, line_views(lines@), i as int), r.0, Seq::empty(), r.1),
{
    proof {
        reveal(fence_step);
    }
    let ghost l = line_views(lines@);
    proof {
        lemma_fviews_empty();
        lemma_line_index(lines@, i as int);
    }
    let (p, ce) = lines[i];
    let ghost t = cs@.subrange(p as int, ce as int);
    let line_count = lines.len();
    let marker = sub_chars(cs, p, p + 3);
    proof {
        assert(t.take(3) =~= marker@);
        assert(t.skip(3) =~= cs@.subrange(p + 3, ce as int));
    }
    let j = fence_close_exec(cs, lines, i + 1, &marker);
    let n = cs.len();
    let e = if j < lines.len() {
        proof {
            lemma_line_index(lines@, j as int);
        }
        offs[lines[j].1]
    } else {
        offs[n]
    };
    let cstart = ce + newline_after_exec(cs, ce);
    let cend = if j < lines.len() {
        let w = newline_before_exec(cs, lines[j].0);
        if lines[j].0 >= w {
            lines[j].0 - w
        } else {
            0
        }
    } else {
        n
    };
    let language = first_word_exec(cs, p + 3, ce);
    let value = if cstart <= cend {
        string_of(cs, cstart, cend)
    } else {
        String::new()
    };
    let next = if j < line_count - 1 {
        j + 1
    } else {
        line_count
    };
    (Block::Code { language, value, span: Span { start: offs[p], end: e } }, next)
}

fn heading_kind(cs: &Vec<char>, p: usize, ce: usize) -> (r: Option<(usize, usize, usize)>)
    requires
        p <= ce <= cs@.len(),
    ensures
        match r {
            Some((n, ts, te)) => heading_of(cs@, p as int, ce as int) == Some((n as int, ts as int, te as int)) && 1 <= n
                <= 6 && ts <= te <= ce,
            None => heading_of(cs@, p as int, ce as int) is None,
        },
{
    let ghost t = cs@.subrange(p as int, ce as int);
    let mut k = p;
    while k < ce && cs[k] == '#'
        invariant
            p <= k <= ce <= cs@.len(),
            t == cs@.subrange(p as int, ce as int),
            hashes(t, k - p) == hashes(t, 0),
        decreases ce - k,
    {
        k = k + 1;
    }
    let n = k - p;
    if !(1 <= n && n <= 6 && k < ce && cs[k] == ' ') {
        return None;
    }
    let ts = skip_ws_exec(cs, k + 1, ce);
    let te = trim_end_exec(cs, ts, ce);
    Some((n, ts, te))
}

fn heading_exec(
    cs: &Vec<char>,
    offs: &Vec<usize>,
    pt: &Pats,
    lines: &Vec<(usize, usize)>,
    i: usize,
    n: usize,
    ts: usize,
    te: usize,
) -> (r: (Block, usize))
    requires
        lines_wf(cs@, lines@),
        offsets_of(offs@, cs@),
        pt.wf(),
        i < lines@.len(),
        1 <= n <= 6,
        ts <= te <= cs@.len(),
        heading_of(cs@, line_views(lines@)[i as int].0, line_views(lines@)[i as int].1) == Some((n as int, ts as int, te as int)),
    ensures
        step_is(heading_step(cs@, line_views(lines@), i as int), r.0, Seq::empty(), r.1),
{
    proof {
        reveal(heading_step);
    }
    proof {
        lemma_fviews_empty();
        lemma_line_index(lines@, i as int);
    }
    let line_count = lines.len();
    let (p, ce) = lines[i];
    let children = parse_inlines(cs, offs, pt, ts, te);
    let text = string_of(cs, ts, te);
    let slug = slugify_exec(&text);
    let level = n as u8;
    (Block::Heading { level, text, slug, children, span: Span { start: offs[p], end: offs[ce] } }, i + 1)
}

fn pipe_line_exec(cs: &Vec<char>, p: usize, ce: usize) -> (r: bool)
    requires
        p <= ce <= cs@.len(),
    ensures
        r == pipe_line(cs@, p as int, ce as int),
{
    let ls = skip_ws_exec(cs, p, ce);
    ls < ce && cs[ls] == '|'
}

fn table_end_exec(cs: &Vec<char>, lines: &Vec<(usize, usize)>, k0: usize) -> (r: usize)
    requires
        lines_wf(cs@, lines@),
        k0 <= lines@.len(),
    ensures
        r == table_end(cs@, line_views(lines@), k0 as int),
        k0 <= r <= lines@.len(),
{
    let ghost l = line_views(lines@);
    proof {
        lemma_ends(cs@, l, k0 as int, Seq::empty());
    }
    let mut j = k0;
    while j < lines.len()
        invariant
            k0 <= j <= lines@.len(),
            l == line_views(lines@),
            lines_wf(cs@, lines@),
            table_end(cs@, l, j as int) == table_end(cs@, l, k0 as int),
        decreases lines@.len() - j,
    {
        let (p, ce) = lines[j];
        proof {
            lemma_line_index(lines@, j as int);
        }
        if !pipe_line_exec(cs, p, ce) {
            return j;
        }
        j = j + 1;
    }
    lines.len()
}

fn table_exec(cs: &Vec<char>, offs: &Vec<usize>, lines: &Vec<(usize, usize)>, i: usize) -> (r: (Block, usize))
    requires
        lines_wf(cs@, lines@),
        offsets_of(offs@, cs@),
        i + 1 < lines@.len(),
    ensures
        step_is(table_step(cs@, line_views(lines@), i as int), r.0, Seq::empty(), r.1),
{
    proof {
        reveal(table_step);
    }
    let ghost l = line_views(lines@);
    proof {
        lemma_fviews_empty();
        lemma_line_index(lines@, i as int);
        lemma_ends(cs@, l, i + 2, Seq::empty());
    }
    let line_count = lines.len();
    let j = table_end_exec(cs, lines, i + 2);
    let (p, ce) = lines[i];
    let headers = table_cells_exec(cs, p, ce);
    let mut rows: Vec<Vec<String>> = Vec::new();
    let mut k = i + 2;
    proof {
        assert(rows_view(rows@) =~= Seq::<Seq<Seq<char>>>::empty());
    }
    while k < j
        invariant
            i + 2 <= k <= j <= lines@.len(),
            l == line_views(lines@),
            lines_wf(cs@, lines@),
            rows_view(rows@) + table_rows(cs@, l, k as int, j as int) == table_rows(cs@, l, i + 2, j as int),
        decreases j - k,
    {
        let (a, b) = lines[k];
        proof {
            lemma_line_index(lines@, k as int);
        }
        let ghost before = rows_view(rows@);
        let row = table_cells_exec(cs, a, b);
        rows.push(row);
        proof {
            assert(rows_view(rows@) =~= before.push(strs(row@)));
            assert(rows_view(rows@) + table_rows(cs@, l, k + 1, j as int) =~= before + table_rows(cs@, l, k as int, j as int));
        }
        k = k + 1;
    }
    proof {
        assert(table_rows(cs@, l, j as int, j as int) =~= Seq::<Seq<Seq<char>>>::empty());
        assert(rows_view(rows@) =~= table_rows(cs@, l, i + 2, j as int));
        lemma_line_index(lines@, j - 1);
    }
    let end = lines[j - 1].1;
    (Block::Table { headers, rows, span: Span { start: offs[p], end: offs[end] } }, j)
}

fn para_end_exec(cs: &Vec<char>, lines: &Vec<(usize, usize)>, k0: usize) -> (r: usize)
    requires
        lines_wf(cs@, lines@),
        k0 <= lines@.len(),
    ensures
        r == para_end(cs@, line_views(lines@), k0 as int),
        k0 <= r <= lines@.len(),
{
    let ghost l = line_views(lines@);
    proof {
        lemma_ends(cs@, l, k0 as int, Seq::empty());
    }
    let mut j = k0;
    while j < lines.len()
        invariant
            k0 <= j <= lines@.len(),
            l == line_views(lines@),
            lines_wf(cs@, lines@),
            para_end(cs@, l, j as int) == para_end(cs@, l, k0 as int),
        decreases lines@.len() - j,
    {
        let (p, ce) = lines[j];
        proof {
            lemma_line_index(lines@, j as int);
        }
        if is_blank(cs, p, ce) {
            return j;
        }
        j = j + 1;
    }
    lines.len()
}

/// A single paragraph holding the given inline nodes.
fn one_paragraph(children: Vec<Inline>, span: Span) -> (r: Vec<Block>)
    ensures
        bviews(r@) == seq![BlockView::Paragraph { children: iviews(children@), start: span.start as int, end: span.end as int }],
{
    let para = Block::Paragraph { children, span };
    let mut r: Vec<Block> = Vec::new();
    r.push(para);
    proof {
        lemma_bviews_push(Seq::empty(), para);
        assert(Seq::<Block>::empty().push(para) =~= r@);
        assert(bviews(Seq::<Block>::empty()) =~= Seq::<BlockView>::empty());
        assert(bviews(r@) =~= seq![bview(para)]);
    }
    r
}

fn para_exec(
    cs: &Vec<char>,
    offs: &Vec<usize>,
    pt: &Pats,
    lines: &Vec<(usize, usize)>,
    i: usize,
) -> (r: (Block, Vec<Footnote>, usize))
    requires
        lines_wf(cs@, lines@),
        offsets_of(offs@, cs@),
        pt.wf(),
        i < lines@.len(),
    ensures
        step_is(para_step(cs@, line_views(lines@), i as int), r.0, r.1@, r.2),
{
    proof {
        reveal(para_step);
    }
    let ghost l = line_views(lines@);
    let line_count = lines.len();
    proof {
        lemma_line_index(lines@, i as int);
    }
    let j = para_end_exec(cs, lines, i + 1);
    proof {
        lemma_line_index(lines@, j - 1);
    }
    let p = lines[i].0;
    let b = lines[j - 1].1;
    let children = parse_inlines(cs, offs, pt, p, b);
    let fl = lines_exec(cs, p, b);
    proof {
        lemma_line_vec_bounds(fl@, cs@, p as int, b as int);
    }
    let notes = footnotes_exec(cs, offs, &fl);
    (Block::Paragraph { children, span: Span { start: offs[p], end: offs[b] } }, notes, j)
}

pub proof fn lemma_quote_lines(s: Seq<char>, l: Seq<(int, int)>, k: int, m: int)
    requires
        0 <= k <= m < quote_end(s, l, k),
        quote_end(s, l, k) <= l.len(),
    ensures
        l[m].0 < l[m].1 && s[l[m].0] == '>',
    decreases m - k,
{
    if k < m {
        lemma_quote_lines(s, l, k + 1, m);
    }
}

fn quote_end_exec(cs: &Vec<char>, lines: &Vec<(usize, usize)>, k0: usize) -> (r: usize)
    requires
        lines_wf(cs@, lines@),
        k0 <= lines@.len(),
    ensures
        r == quote_end(cs@, line_views(lines@), k0 as int),
        k0 <= r <= lines@.len(),
{
    let ghost l = line_views(lines@);
    proof {
        lemma_ends(cs@, l, k0 as int, Seq::empty());
    }
    let mut j = k0;
    while j < lines.len()
        invariant
            k0 <= j <= lines@.len(),
            l == line_views(lines@),
            lines_wf(cs@, lines@),
            quote_end(cs@, l, j as int) == quote_end(cs@, l, k0 as int),
        decreases lines@.len() - j,
    {
        let (p, ce) = lines[j];
        proof {
            lemma_line_index(lines@, j as int);
        }
        if !(p < ce && cs[p] == '>') {
            return j;
        }
        j = j + 1;
    }
    lines.len()
}

fn quote_inlines_exec(
    cs: &Vec<char>,
    offs: &Vec<usize>,
    pt: &Pats,
    lines: &Vec<(usize, usize)>,
    k0: usize,
    j: usize,
) -> (r: Vec<Inline>)
    requires
        lines_wf(cs@, lines@),
        offsets_of(offs@, cs@),
        pt.wf(),
        k0 <= j <= lines@.len(),
        forall|m: int| k0 <= m < j ==> #[trigger] lines@[m].0 < lines@[m].1,
    ensures
        iviews(r@) == quote_inlines(cs@, line_views(lines@), k0 as int, j as int).nodes,
{
    let ghost l = line_views(lines@);
    let mut out: Vec<Inline> = Vec::new();
    let mut k = k0;
    proof {
        assert(iviews(out@) =~= Seq::<InlineView>::empty());
    }
    while k < j
        invariant
            k0 <= k <= j <= lines@.len(),
            l == line_views(lines@),
            lines_wf(cs@, lines@),
            offsets_of(offs@, cs@),
            pt.wf(),
            forall|m: int| k0 <= m < j ==> #[trigger] lines@[m].0 < lines@[m].1,
            iviews(out@) + quote_inlines(cs@, l, k as int, j as int).nodes == quote_inlines(cs@, l, k0 as int, j as int).nodes,
        decreases j - k,
    {
        let (p, ce) = lines[k];
        proof {
            lemma_line_index(lines@, k as int);
        }
        let qc = skip_ws_exec(cs, p + 1, ce);
        let mut here = parse_inlines(cs, offs, pt, qc, ce);
        let ghost before = iviews(out@);
        let ghost h = iviews(here@);
        proof {
            lemma_iviews_concat(out@, here@);
        }
        out.append(&mut here);
        proof {
            assert(iviews(out@) == before + h);
            assert(iviews(out@) + quote_inlines(cs@, l, k + 1, j as int).nodes =~= before + quote_inlines(
                cs@,
                l,
                k as int,
                j as int,
            ).nodes);
        }
        k = k + 1;
    }
    proof {
        assert(iviews(out@) =~= quote_inlines(cs@, l, k0 as int, j as int).nodes);
    }
    out
}

fn quote_exec(
    cs: &Vec<char>,
    offs: &Vec<usize>,
    pt: &Pats,
    lines: &Vec<(usize, usize)>,
    i: usize,
) -> (r: (Block, usize))
    requires
        lines_wf(cs@, lines@),
        offsets_of(offs@, cs@),
        pt.wf(),
        i < lines@.len(),
        lines@[i as int].0 < lines@[i as int].1 && cs@[lines@[i as int].0 as int] == '>',
    ensures
        step_is(quote_step(cs@, line_views(lines@), i as int), r.0, Seq::empty(), r.1),
{
    proof {
        reveal(quote_step);
    }
    let ghost l = line_views(lines@);
    proof {
        lemma_fviews_empty();
        lemma_line_index(lines@, i as int);
        lemma_ends(cs@, l, i + 1, Seq::empty());
        assert(quote_end(cs@, l, i as int) == quote_end(cs@, l, i + 1));
    }
    let (p, ce) = lines[i];
    let j = quote_end_exec(cs, lines, i);
    proof {
        lemma_line_index(lines@, j - 1);
        assert forall|m: int| i <= m < j implies #[trigger] lines@[m].0 < lines@[m].1 by {
            lemma_quote_lines(cs@, l, i as int, m);
            lemma_line_index(lines@, m);
        }
    }
    let e = offs[lines[j - 1].1];
    let qc = skip_ws_exec(cs, p + 1, ce);
    match callout_exec(cs, qc, ce) {
        Some((kind, title, foldable)) => {
            let children = quote_inlines_exec(cs, offs, pt, lines, i + 1, j);
            let child_start = if j > i + 1 {
                proof {
                    lemma_line_index(lines@, i + 1);
                }
                offs[skip_ws_exec(cs, lines[i + 1].0 + 1, lines[i + 1].1)]
            } else {
                e
            };
            let child_end = if j > i + 1 {
                e
            } else {
                child_start
            };
            let body = one_paragraph(children, Span { start: child_start, end: child_end });
            (Block::Callout { kind, title, foldable, children: body, span: Span { start: offs[p], end: e } }, j)
        },
        None => {
            let children = quote_inlines_exec(cs, offs, pt, lines, i, j);
            let body = one_paragraph(children, Span { start: offs[qc], end: e });
            (Block::Quote { children: body, span: Span { start: offs[p], end: e } }, j)
        },
    }
}

fn list_marker_exec(cs: &Vec<char>, p: usize, ce: usize) -> (r: Option<(bool, usize)>)
    requires
        p <= ce <= cs@.len(),
    ensures
        match r {
            Some((o, c)) => list_marker(cs@, p as int, ce as int) == Some((o, c as int)) && p <= c <= ce,
            None => list_marker(cs@, p as int, ce as int) is None,
        },
{
    let ls = skip_ws_exec(cs, p, ce);
    let mut d = ls;
    while d < ce && '0' <= cs[d] && cs[d] <= '9'
        invariant
            ls <= d <= ce <= cs@.len(),
            digit_run(cs@, d as int, ce as int) == digit_run(cs@, ls as int, ce as int),
        decreases ce - d,
    {
        d = d + 1;
    }
    if d > ls && ce >= 2 && d < ce - 1 && cs[d] == '.' && cs[d + 1] == ' ' {
        Some((true, d + 2))
    } else if ce >= 2 && ls < ce - 1 && (cs[ls] == '-' || cs[ls] == '*' || cs[ls] == '+') && cs[ls + 1] == ' ' {
        Some((false, ls + 2))
    } else {
        None
    }
}

fn task_state_exec(cs: &Vec<char>, a: usize, ce: usize, pats: &Vec<Vec<char>>) -> (r: Option<bool>)
    requires
        a <= ce <= cs@.len(),
        pats@.len() == 3,
        pats@[0]@ == seq!['[', ' ', ']', ' '],
        pats@[1]@ == seq!['[', 'x', ']', ' '],
        pats@[2]@ == seq!['[', 'X', ']', ' '],
    ensures
        r == task_state(cs@.subrange(a as int, ce as int)),
{
    if region_starts_with(cs, a, ce, &pats[0]) {
        Some(false)
    } else if region_starts_with(cs, a, ce, &pats[1]) || region_starts_with(cs, a, ce, &pats[2]) {
        Some(true)
    } else {
        None
    }
}

fn task_patterns() -> (r: Vec<Vec<char>>)
    ensures
        r@.len() == 3,
        r@[0]@ == seq!['[', ' ', ']', ' '],
        r@[1]@ == seq!['[', 'x', ']', ' '],
        r@[2]@ == seq!['[', 'X', ']', ' '],
{
    let a = chars_of("[ ] ");
    let b = chars_of("[x] ");
    let c = chars_of("[X] ");
    proof {
        reveal_strlit("[ ] ");
        reveal_strlit("[x] ");
        reveal_strlit("[X] ");
        assert(a@ =~= seq!['[', ' ', ']', ' ']);
        assert(b@ =~= seq!['[', 'x', ']', ' ']);
        assert(c@ =~= seq!['[', 'X', ']', ' ']);
    }
    let mut r: Vec<Vec<char>> = Vec::new();
    r.push(a);
    r.push(b);
    r.push(c);
    r
}

#[verifier::rlimit(50)]
fn list_items_exec(
    cs: &Vec<char>,
    offs: &Vec<usize>,
    pt: &Pats,
    lines: &Vec<(usize, usize)>,
    i: usize,
    ordered: bool,
) -> (r: (Vec<ListItem>, usize))
    requires
        lines_wf(cs@, lines@),
        offsets_of(offs@, cs@),
        pt.wf(),
        i <= lines@.len(),
    ensures
        item_views(r.0@) == list_items(cs@, line_views(lines@), i as int, ordered).0,
        r.1 == list_items(cs@, line_views(lines@), i as int, ordered).1,
{
    let ghost l = line_views(lines@);
    let tp = task_patterns();
    let mut items: Vec<ListItem> = Vec::new();
    let mut k = i;
    proof {
        assert(item_views(items@) =~= Seq::<ItemView>::empty());
    }
    while k < lines.len()
        invariant
            i <= k <= lines@.len(),
            l == line_views(lines@),
            lines_wf(cs@, lines@),
            offsets_of(offs@, cs@),
            pt.wf(),
            tp@.len() == 3,
            tp@[0]@ == seq!['[', ' ', ']', ' '],
            tp@[1]@ == seq!['[', 'x', ']', ' '],
            tp@[2]@ == seq!['[', 'X', ']', ' '],
            list_items(cs@, l, k as int, ordered).1 == list_items(cs@, l, i as int, ordered).1,
            item_views(items@) + list_items(cs@, l, k as int, ordered).0 == list_items(cs@, l, i as int, ordered).0,
        decreases lines@.len() - k,
    {
        let (p, ce) = lines[k];
        proof {
            lemma_line_index(lines@, k as int);
        }
        match list_marker_exec(cs, p, ce) {
            Some((o, c)) => {
                if o != ordered {
                    proof {
                        assert(item_views(items@) =~= list_items(cs@, l, i as int, ordered).0);
                    }
                    return (items, k);
                }
                let checked = task_state_exec(cs, c, ce, &tp);
                let c0 = if checked.is_some() {
                    c + 4
                } else {
                    c
                };
                proof {
                    if checked is Some {
                        assert(c + 4 <= ce);
                    }
                }
                let children = parse_inlines(cs, offs, pt, c0, ce);
                let blocks = one_paragraph(children, Span { start: offs[c0], end: offs[ce] });
                let item = ListItem { checked, blocks, span: Span { start: offs[p], end: offs[ce] } };
                let ghost before = item_views(items@);
                proof {
                    lemma_item_views_push(items@, item);
                }
                items.push(item);
                proof {
                    assert(item_views(items@) + list_items(cs@, l, k + 1, ordered).0 =~= before + list_items(
                        cs@,
                        l,
                        k as int,
                        ordered,
                    ).0);
                }
                k = k + 1;
            },
            None => {
                proof {
                    assert(item_views(items@) =~= list_items(cs@, l, i as int, ordered).0);
                }
                return (items, k);
            },
        }
    }
    proof {
        assert(item_views(items@) =~= list_items(cs@, l, i as int, ordered).0);
    }
    (items, k)
}

fn list_exec(
    cs: &Vec<char>,
    offs: &Vec<usize>,
    pt: &Pats,
    lines: &Vec<(usize, usize)>,
    i: usize,
    ordered: bool,
) -> (r: (Block, usize))
    requires
        lines_wf(cs@, lines@),
        offsets_of(offs@, cs@),
        pt.wf(),
        i < lines@.len(),
        list_marker(cs@, line_views(lines@)[i as int].0, line_views(lines@)[i as int].1) matches Some((o, _)) && o == ordered,
    ensures
        step_is(list_step(cs@, line_views(lines@), i as int), r.0, Seq::empty(), r.1),
{
    proof {
        reveal(list_step);
    }
    let ghost l = line_views(lines@);
    proof {
        lemma_fviews_empty();
        lemma_line_index(lines@, i as int);
        lemma_list_items(cs@, l, i as int, ordered);
        lemma_list_items(cs@, l, i + 1, ordered);
    }
    let p = lines[i].0;
    let (items, j) = list_items_exec(cs, offs, pt, lines, i, ordered);
    proof {
        lemma_line_index(lines@, j - 1);
    }
    let end = offs[lines[j - 1].1];
    (Block::List { ordered, items, span: Span { start: offs[p], end } }, j)
}

pub open spec fn opt_bview(o: Option<Block>) -> Option<BlockView> {
    match o {
        Some(b) => Some(bview(b)),
        None => None,
    }
}

#[verifier::rlimit(60)]
fn block_exec(
    cs: &Vec<char>,
    offs: &Vec<usize>,
    pt: &Pats,
    lines: &Vec<(usize, usize)>,
    i: usize,
) -> (r: (Option<Block>, Vec<Footnote>, usize))
    requires
        lines_wf(cs@, lines@),
        offsets_of(offs@, cs@),
        pt.wf(),
        i < lines@.len(),
    ensures
        block_step(cs@, line_views(lines@), i as int).block == opt_bview(r.0),
        block_step(cs@, line_views(lines@), i as int).notes == fviews(r.1@),
        block_step(cs@, line_views(lines@), i as int).next == r.2 as int,
{
    let ghost l = line_views(lines@);
    proof {
        lemma_fviews_empty();
        lemma_line_index(lines@, i as int);
    }
    let line_count = lines.len();
    let (p, ce) = lines[i];
    let none: Vec<Footnote> = Vec::new();
    if is_blank(cs, p, ce) {
        return (None, none, i + 1);
    }
    let comment = chars_of("<!--");
    let ticks = chars_of("```");
    let tildes = chars_of("~~~");
    let dashes = chars_of("---");
    proof {
        reveal_strlit("<!--");
        reveal_strlit("```");
        reveal_strlit("~~~");
        reveal_strlit("---");
        assert(comment@ =~= seq!['<', '!', '-', '-']);
        assert(ticks@ =~= seq!['`', '`', '`']);
        assert(tildes@ =~= seq!['~', '~', '~']);
        assert(dashes@ =~= seq!['-', '-', '-']);
    }
    if region_starts_with(cs, p, ce, &comment) {
        let (b, next) = comment_exec(cs, offs, lines, i);
        return (Some(b), none, next);
    }
    if region_starts_with(cs, p, ce, &ticks) || region_starts_with(cs, p, ce, &tildes) {
        let (b, next) = fence_exec(cs, offs, lines, i);
        return (Some(b), none, next);
    }
    if let Some((n, ts, te)) = heading_kind(cs, p, ce) {
        let (b, next) = heading_exec(cs, offs, pt, lines, i, n, ts, te);
        return (Some(b), none, next);
    }
    if p < ce && cs[p] == '>' {
        let (b, next) = quote_exec(cs, offs, pt, lines, i);
        return (Some(b), none, next);
    }
    if let Some((ordered, _)) = list_marker_exec(cs, p, ce) {
        let (b, next) = list_exec(cs, offs, pt, lines, i, ordered);
        return (Some(b), none, next);
    }
    if pipe_line_exec(cs, p, ce) && i + 1 < line_count {
        proof {
            lemma_line_index(lines@, i + 1);
        }
        let (a2, b2) = lines[i + 1];
        if region_contains(cs, a2, b2, &dashes) {
            let (b, next) = table_exec(cs, offs, lines, i);
            return (Some(b), none, next);
        }
    }
    if is_break_exec(cs, p, ce) {
        return (Some(Block::ThematicBreak { span: Span { start: offs[p], end: offs[ce] } }), none, i + 1);
    }
    let (b, notes, next) = para_exec(cs, offs, pt, lines, i);
    (Some(b), notes, next)
}

/// The blocks and footnote definitions of all the lines.
#[verifier::rlimit(60)]
pub fn blocks_exec(
    cs: &Vec<char>,
    offs: &Vec<usize>,
    pt: &Pats,
    lines: &Vec<(usize, usize)>,
) -> (r: (Vec<Block>, Vec<Footnote>))
    requires
        lines_wf(cs@, lines@),
        offsets_of(offs@, cs@),
        pt.wf(),
    ensures
        bviews(r.0@) == blocks_from(cs@, line_views(lines@), 0).0,
        fviews(r.1@) == blocks_from(cs@, line_views(lines@), 0).1,
{
    let ghost l = line_views(lines@);
    let ghost total = blocks_from(cs@, l, 0);
    let mut blocks: Vec<Block> = Vec::new();
    let mut notes: Vec<Footnote> = Vec::new();
    let mut i: usize = 0;
    proof {
        assert(bviews(blocks@) =~= Seq::<BlockView>::empty());
        assert(fviews(notes@) =~= Seq::<FootView>::empty());
        assert(bviews(blocks@) + blocks_from(cs@, l, 0).0 =~= total.0);
        assert(fviews(notes@) + blocks_from(cs@, l, 0).1 =~= total.1);
    }
    while i < lines.len()
        invariant
            i <= lines@.len(),
            l == line_views(lines@),
            lines_wf(cs@, lines@),
            offsets_of(offs@, cs@),
            pt.wf(),
            total == blocks_from(cs@, l, 0),
            bviews(blocks@) + blocks_from(cs@, l, i as int).0 == total.0,
            fviews(notes@) + blocks_from(cs@, l, i as int).1 == total.1,
        decreases lines@.len() - i,
    {
        proof {
            lemma_block_step(cs@, l, i as int);
        }
        let ghost bb = bviews(blocks@);
        let ghost nb = fviews(notes@);
        let (b, mut ns, next) = block_exec(cs, offs, pt, lines, i);
        match b {
            Some(x) => {
                proof {
                    lemma_bviews_push(blocks@, x);
                }
                blocks.push(x);
            },
            None => {},
        }
        let ghost nsv = fviews(ns@);
        notes.append(&mut ns);
        proof {
            assert(fviews(notes@) =~= nb + nsv);
            assert(bviews(blocks@) + blocks_from(cs@, l, next as int).0 =~= bb + blocks_from(cs@, l, i as int).0);
            assert(fviews(notes@) + blocks_from(cs@, l, next as int).1 =~= nb + blocks_from(cs@, l, i as int).1);
        }
        i = next;
    }
    proof {
        assert(bviews(blocks@) =~= total.0);
        assert(fviews(notes@) =~= total.1);
    }
    (blocks, notes)
}

} // verus!
