//! Cursor columns that respect grapheme clusters: a column never lands
//! inside a cluster (an emoji with modifiers, a letter with combining
//! marks), and horizontal motion steps over whole clusters.
use vstd::prelude::*;

verus! {

/// The extended grapheme clusters of `s`, in order
/// (`UnicodeSegmentation::graphemes(s, true)`).
pub uninterp spec fn clusters(s: Seq<char>) -> Seq<Seq<char>>;

/// The concatenation of a sequence of strings.
pub open spec fn concat(gs: Seq<Seq<char>>) -> Seq<char>
    decreases gs.len(),
{
    if gs.len() == 0 {
        seq![]
    } else {
        concat(gs.drop_last()) + gs.last()
    }
}

/// The extended grapheme clusters of `s`
/// (`unicode_segmentation::UnicodeSegmentation::graphemes`), collected.
/// The iterator splits `s`: the clusters are non-empty and together spell
/// `s`.
#[verifier::external_body]
fn graphemes(s: &str) -> (r: Vec<String>)
    ensures
        r@.map_values(|g: String| g@) == clusters(s@),
        concat(r@.map_values(|g: String| g@)) == s@,
        forall|k: int| 0 <= k < r@.len() ==> (#[trigger] r@[k])@.len() > 0,
{
    unicode_segmentation::UnicodeSegmentation::graphemes(s, true).map(|g| g.to_string()).collect()
}

/// The char lengths of the clusters of `s`.
fn cluster_lens(s: &str) -> (r: Vec<usize>)
    ensures
        r@.len() == clusters(s@).len(),
        forall|k: int| 0 <= k < r@.len() ==> (#[trigger] r@[k]) as int == clusters(s@)[k].len(),
        forall|k: int| 0 <= k < r@.len() ==> (#[trigger] r@[k]) > 0,
        forall|k: int| 0 <= k < clusters(s@).len() ==> (#[trigger] clusters(s@)[k]).len() > 0,
        sum_lens(clusters(s@), clusters(s@).len() as int) == s@.len(),
        s@.len() <= usize::MAX,
{
    let (_gs, r) = split_clusters(s);
    r
}

/// The clusters of `s`, and their char lengths.
fn split_clusters(s: &str) -> (out: (Vec<String>, Vec<usize>))
    ensures
        out.0@.map_values(|g: String| g@) == clusters(s@),
        out.0@.len() == clusters(s@).len(),
        forall|k: int| 0 <= k < out.0@.len() ==> (#[trigger] out.0@[k])@ == clusters(s@)[k],
        ({
            let r = out.1;
            &&& r@.len() == clusters(s@).len()
            &&& forall|k: int| 0 <= k < r@.len() ==> (#[trigger] r@[k]) as int == clusters(s@)[k].len()
            &&& forall|k: int| 0 <= k < r@.len() ==> (#[trigger] r@[k]) > 0
        }),
        forall|k: int| 0 <= k < clusters(s@).len() ==> (#[trigger] clusters(s@)[k]).len() > 0,
        sum_lens(clusters(s@), clusters(s@).len() as int) == s@.len(),
        s@.len() <= usize::MAX,
{
    let all = crate::text::chars_of(s);
    let _total = all.len();
    let gs = graphemes(s);
    let ghost cs = clusters(s@);
    assert(gs@.len() == cs.len()) by {
        assert(gs@.map_values(|g: String| g@).len() == gs@.len());
    }
    assert forall|j: int| 0 <= j < cs.len() implies (#[trigger] cs[j]).len() > 0 by {
        assert(cs[j] == gs@[j]@);
    }
    let mut r: Vec<usize> = Vec::new();
    let mut k: usize = 0;
    while k < gs.len()
        invariant
            k <= gs@.len(),
            gs@.len() == cs.len(),
            cs == clusters(s@),
            gs@.map_values(|g: String| g@) == cs,
            forall|j: int| 0 <= j < cs.len() ==> (#[trigger] cs[j]).len() > 0,
            r@.len() == k,
            forall|j: int| 0 <= j < k ==> (#[trigger] r@[j]) as int == cs[j].len(),
        decreases gs@.len() - k,
    {
        let n = crate::text::chars_of(gs[k].as_str()).len();
        assert(gs@.map_values(|g: String| g@)[k as int] == gs@[k as int]@);
        r.push(n);
        k += 1;
    }
    proof {
        lemma_sum_concat(cs, cs.len() as int);
        assert(cs.subrange(0, cs.len() as int) =~= cs);
        assert(concat(cs) == s@);
        assert forall|k: int| 0 <= k < gs@.len() implies (#[trigger] gs@[k])@ == cs[k] by {
            assert(gs@.map_values(|g: String| g@)[k] == gs@[k]@);
        }
    }
    (gs, r)
}

/// The total length of the first `k` strings of `gs`.
pub open spec fn sum_lens(gs: Seq<Seq<char>>, k: int) -> int
    decreases k,
{
    if k <= 0 {
        0
    } else {
        sum_lens(gs, k - 1) + gs[k - 1].len()
    }
}

proof fn lemma_sum_concat(gs: Seq<Seq<char>>, k: int)
    requires
        0 <= k <= gs.len(),
    ensures
        sum_lens(gs, k) == concat(gs.subrange(0, k)).len(),
    decreases k,
{
    if k > 0 {
        lemma_sum_concat(gs, k - 1);
        assert(gs.subrange(0, k).drop_last() =~= gs.subrange(0, k - 1));
    }
    if k == gs.len() {
        assert(gs.subrange(0, k) =~= gs);
    }
}

proof fn lemma_sum_mono(gs: Seq<Seq<char>>, j: int, k: int)
    requires
        0 <= j <= k <= gs.len(),
        forall|i: int| 0 <= i < gs.len() ==> (#[trigger] gs[i]).len() > 0,
    ensures
        sum_lens(gs, j) + (k - j) <= sum_lens(gs, k),
    decreases k - j,
{
    if j < k {
        lemma_sum_mono(gs, j, k - 1);
    }
}

/// The cluster boundaries of `s`: the char offsets `0`, then the end of
/// each cluster.
pub open spec fn boundary(s: Seq<char>, k: int) -> int {
    sum_lens(clusters(s), k)
}

/// Whether cluster `k` is the one holding char column `col` (or `k` is
/// the cluster count, when `col` is past the end): no earlier cluster ends
/// after `col`, and cluster `k` does.
pub open spec fn floor_index(s: Seq<char>, col: int, k: int) -> bool {
    &&& 0 <= k <= clusters(s).len()
    &&& k == clusters(s).len() || col < boundary(s, k + 1)
    &&& forall|j: int| 0 <= j < k ==> col >= #[trigger] boundary(s, j + 1)
}

/// Snaps char column `col` back to the start of the grapheme cluster that
/// contains it (the text length when `col` is past the end).
pub fn floor(text: &str, col: usize) -> (r: usize)
    ensures
        exists|k: int| #[trigger] floor_index(text@, col as int, k) && r == boundary(text@, k),
        r <= text@.len(),
{
    let lens = cluster_lens(text);
    let ghost cs = clusters(text@);
    let mut at: usize = 0;
    let mut k: usize = 0;
    proof {
        lemma_sum_mono(cs, 0, cs.len() as int);
    }
    while k < lens.len()
        invariant
            k <= lens@.len(),
            lens@.len() == cs.len(),
            cs == clusters(text@),
            forall|j: int| 0 <= j < lens@.len() ==> (#[trigger] lens@[j]) as int == cs[j].len(),
            forall|j: int| 0 <= j < cs.len() ==> (#[trigger] cs[j]).len() > 0,
            sum_lens(cs, cs.len() as int) == text@.len(),
            text@.len() <= usize::MAX,
            at == sum_lens(cs, k as int),
            forall|j: int| 0 <= j < k ==> col >= #[trigger] boundary(text@, j + 1),
        decreases lens@.len() - k,
    {
        proof {
            lemma_sum_mono(cs, k + 1, cs.len() as int);
        }
        let end = at + lens[k];
        if col < end {
            assert(col < boundary(text@, k + 1));
            assert(floor_index(text@, col as int, k as int));
            return at;
        }
        at = end;
        k += 1;
    }
    assert(floor_index(text@, col as int, k as int));
    at
}

/// The index of the last boundary at or before `col`.
pub open spec fn boundary_index(s: Seq<char>, col: int, i: int) -> bool {
    0 <= i <= clusters(s).len() && boundary(s, i) <= col && (i == clusters(s).len() || boundary(
        s,
        i + 1,
    ) > col)
}

/// The cluster index `count` clusters forward or backward from `i`,
/// stopping at the ends.
pub open spec fn moved(s: Seq<char>, i: int, count: int, forward: bool) -> int {
    if forward {
        if i + count > clusters(s).len() { clusters(s).len() as int } else { i + count }
    } else {
        if i - count < 0 { 0 } else { i - count }
    }
}

/// Where `step` lands: the boundary `count` clusters from the last boundary
/// at or before `col`.
pub open spec fn step_result(s: Seq<char>, col: int, count: int, forward: bool) -> int {
    boundary(s, moved(s, choose|i: int| boundary_index(s, col, i), count, forward))
}

/// With non-empty clusters, the last boundary at or before a column is
/// unique.
proof fn lemma_boundary_index_unique(s: Seq<char>, col: int, i: int, j: int)
    requires
        boundary_index(s, col, i),
        boundary_index(s, col, j),
        forall|k: int| 0 <= k < clusters(s).len() ==> (#[trigger] clusters(s)[k]).len() > 0,
    ensures
        i == j,
{
    if i < j {
        lemma_sum_mono(clusters(s), i + 1, j);
    } else if j < i {
        lemma_sum_mono(clusters(s), j + 1, i);
    }
}

/// Moves char column `col` by `count` whole grapheme clusters, forward or
/// backward, from the last cluster boundary at or before `col`, stopping at
/// the text's ends.
pub fn step(text: &str, col: usize, count: usize, forward: bool) -> (r: usize)
    ensures
        r == step_result(text@, col as int, count as int, forward),
        exists|i: int| #[trigger] boundary_index(text@, col as int, i) && r == boundary(
            text@,
            if forward {
                if i + count > clusters(text@).len() {
                    clusters(text@).len() as int
                } else {
                    i + count
                }
            } else {
                if i - count < 0 {
                    0
                } else {
                    i - count
                }
            },
        ),
{
    let lens = cluster_lens(text);
    let ghost cs = clusters(text@);
    let mut points: Vec<usize> = Vec::new();
    points.push(0);
    let mut at: usize = 0;
    let mut k: usize = 0;
    proof {
        lemma_sum_mono(cs, 0, cs.len() as int);
    }
    while k < lens.len()
        invariant
            k <= lens@.len(),
            lens@.len() == cs.len(),
            cs == clusters(text@),
            forall|j: int| 0 <= j < lens@.len() ==> (#[trigger] lens@[j]) as int == cs[j].len(),
            forall|j: int| 0 <= j < cs.len() ==> (#[trigger] cs[j]).len() > 0,
            sum_lens(cs, cs.len() as int) == text@.len(),
            text@.len() <= usize::MAX,
            at == sum_lens(cs, k as int),
            points@.len() == k + 1,
            forall|j: int| 0 <= j <= k ==> (#[trigger] points@[j]) as int == sum_lens(cs, j),
        decreases lens@.len() - k,
    {
        proof {
            lemma_sum_mono(cs, k + 1, cs.len() as int);
        }
        at = at + lens[k];
        points.push(at);
        k += 1;
    }
    // `partition_point(|p| p <= col) - 1`: the last boundary at or before `col`.
    let n = lens.len();
    let mut i: usize = 0;
    while i < n && points[i + 1] <= col
        invariant
            i <= n,
            n == cs.len(),
            points@.len() == n + 1,
            forall|j: int| 0 <= j <= n ==> (#[trigger] points@[j]) as int == sum_lens(cs, j),
            cs == clusters(text@),
            points@[i as int] <= col,
        decreases n - i,
    {
        i += 1;
    }
    assert(boundary_index(text@, col as int, i as int));
    proof {
        let c = choose|c: int| boundary_index(text@, col as int, c);
        lemma_boundary_index_unique(text@, col as int, c, i as int);
    }
    let target = if forward {
        if count > n - i {
            n
        } else {
            i + count
        }
    } else {
        if count > i {
            0
        } else {
            i - count
        }
    };
    points[target]
}


// ---------------------------------------------------------------- display cells

/// The display width of a string in terminal cells
/// (`unicode_width::UnicodeWidthStr::width`).
pub uninterp spec fn str_width(s: Seq<char>) -> usize;

/// `unicode_width::UnicodeWidthStr::width`: how many terminal cells the
/// string takes. Trusted: the result is the named width of `g`.
#[verifier::external_body]
fn display_width(g: &str) -> (r: usize)
    ensures
        r == str_width(g@),
{
    unicode_width::UnicodeWidthStr::width(g)
}

/// Whether a cluster is a tab.
pub open spec fn is_tab(g: Seq<char>) -> bool {
    g == seq!['\t']
}

/// The tab width in use: at least one.
pub open spec fn tab_stop(tab: int) -> int {
    if tab >= 1 { tab } else { 1 }
}

/// The cells a cluster takes when it starts at cell `cells`: a tab reaches
/// the next multiple of `t`, anything else takes its display width.
pub open spec fn advance(g: Seq<char>, cells: int, t: int) -> int {
    if is_tab(g) { t - cells % t } else { str_width(g) as int }
}

/// The display cell where char column `col` starts, from cluster `i` on
/// (at char `at`, cell `width`).
pub open spec fn cell_from(gs: Seq<Seq<char>>, i: int, at: int, width: int, col: int, t: int) -> int
    decreases gs.len() - i,
{
    if i < 0 || i >= gs.len() || at >= col {
        width
    } else {
        cell_from(gs, i + 1, at + gs[i].len(), width + advance(gs[i], width, t), col, t)
    }
}

/// The display cell where char column `col` of `s` starts.
pub open spec fn cell_spec(s: Seq<char>, col: int, tab: int) -> int {
    cell_from(clusters(s), 0, 0, 0, col, tab_stop(tab))
}

proof fn lemma_cell_from_ge(gs: Seq<Seq<char>>, i: int, at: int, width: int, col: int, t: int)
    requires
        t >= 1,
        width >= 0,
    ensures
        cell_from(gs, i, at, width, col, t) >= width,
    decreases gs.len() - i,
{
    if !(i < 0 || i >= gs.len() || at >= col) {
        lemma_cell_from_ge(gs, i + 1, at + gs[i].len(), width + advance(gs[i], width, t), col, t);
    }
}

/// Whether a string is a single tab.
fn is_tab_str(g: &str) -> (r: bool)
    ensures
        r == is_tab(g@),
{
    let gc = crate::text::chars_of(g);
    let r = gc.len() == 1 && gc[0] == '\t';
    proof {
        if r {
            assert(gc@ =~= seq!['\t']);
        }
    }
    r
}

proof fn lemma_cluster_prefix(cs: Seq<Seq<char>>, i: int, n: int)
    requires
        0 <= i < cs.len(),
        forall|k: int| 0 <= k < cs.len() ==> (#[trigger] cs[k]).len() > 0,
        sum_lens(cs, cs.len() as int) == n,
    ensures
        sum_lens(cs, i + 1) <= n,
        sum_lens(cs, i + 1) == sum_lens(cs, i) + cs[i].len(),
{
    lemma_sum_mono(cs, i + 1, cs.len() as int);
}

/// The display cell where char column `col` starts: the cells of the
/// clusters before it, a tab reaching the next multiple of `tab` (at least
/// one). Saturates at `usize::MAX`.
pub fn cell(text: &str, col: usize, tab: usize) -> (r: usize)
    ensures
        r as int == if cell_spec(text@, col as int, tab as int) <= usize::MAX {
            cell_spec(text@, col as int, tab as int)
        } else {
            usize::MAX as int
        },
{
    let t: usize = if tab >= 1 { tab } else { 1 };
    let (gs, _lens) = split_clusters(text);
    let ghost cs = clusters(text@);
    let mut at: usize = 0;
    let mut width: usize = 0;
    let mut i: usize = 0;
    while i < gs.len()
        invariant
            i <= gs@.len(),
            gs@.len() == cs.len(),
            cs == clusters(text@),
            forall|k: int| 0 <= k < gs@.len() ==> (#[trigger] gs@[k])@ == cs[k],
            forall|k: int| 0 <= k < cs.len() ==> (#[trigger] cs[k]).len() > 0,
            sum_lens(cs, cs.len() as int) == text@.len(),
            text@.len() <= usize::MAX,
            t as int == tab_stop(tab as int),
            at as int == sum_lens(cs, i as int),
            cell_from(cs, i as int, at as int, width as int, col as int, t as int) == cell_spec(text@, col as int, tab as int),
        decreases gs@.len() - i,
    {
        if at >= col {
            return width;
        }
        let g = gs[i].as_str();
        let add: usize = if is_tab_str(g) { t - width % t } else { display_width(g) };
        proof {
            lemma_cluster_prefix(cs, i as int, text@.len() as int);
            assert(add as int == advance(cs[i as int], width as int, t as int));
        }
        match width.checked_add(add) {
            Some(w) => {
                width = w;
            },
            None => {
                proof {
                    lemma_cell_from_ge(cs, i + 1, at + cs[i as int].len(), width + add, col as int, t as int);
                }
                return usize::MAX;
            },
        }
        let n = crate::text::chars_of(g).len();
        at = at + n;
        i = i + 1;
    }
    width
}

/// A line with its clusters from `i` on expanded, tabs turned into the
/// spaces up to the next multiple of `t` (`width` cells already taken).
pub open spec fn expand_from(gs: Seq<Seq<char>>, i: int, width: int, t: int) -> Seq<char>
    decreases gs.len() - i,
{
    if i < 0 || i >= gs.len() {
        seq![]
    } else if is_tab(gs[i]) {
        let n = t - width % t;
        crate::text::repeat(seq![' '], n as nat) + expand_from(gs, i + 1, width + n, t)
    } else {
        gs[i] + expand_from(gs, i + 1, width + str_width(gs[i]), t)
    }
}

/// The line with each tab turned into the spaces up to the next multiple
/// of `tab` (at least one), counting display cells.
pub fn expand_tabs(text: &str, tab: usize) -> (r: String)
    ensures
        r@ == expand_from(clusters(text@), 0, 0, tab_stop(tab as int)),
{
    let t: usize = if tab >= 1 { tab } else { 1 };
    let (gs, _lens) = split_clusters(text);
    let ghost cs = clusters(text@);
    let ghost whole = expand_from(cs, 0, 0, t as int);
    let ghost mut width: int = 0;
    let mut phase: usize = 0;
    let mut out: Vec<char> = Vec::new();
    let space = vec![' '];
    proof {
        assert(space@ =~= seq![' ']);
    }
    let mut i: usize = 0;
    while i < gs.len()
        invariant
            i <= gs@.len(),
            gs@.len() == cs.len(),
            cs == clusters(text@),
            forall|k: int| 0 <= k < gs@.len() ==> (#[trigger] gs@[k])@ == cs[k],
            t >= 1,
            t as int == tab_stop(tab as int),
            space@ == seq![' '],
            whole == expand_from(cs, 0, 0, t as int),
            width >= 0,
            phase as int == width % (t as int),
            out@ + expand_from(cs, i as int, width, t as int) == whole,
        decreases gs@.len() - i,
    {
        let g = gs[i].as_str();
        proof {
            vstd::arithmetic::div_mod::lemma_fundamental_div_mod(width, t as int);
        }
        let ghost q = width / (t as int);
        if is_tab_str(g) {
            let n = t - phase;
            let ghost before = out@;
            crate::text::push_repeat(&mut out, &space, n as u64);
            proof {
                assert(expand_from(cs, i as int, width, t as int) == crate::text::repeat(seq![' '], n as nat)
                    + expand_from(cs, i + 1, width + n, t as int));
                assert(out@ + expand_from(cs, i + 1, width + n, t as int) =~= before + expand_from(cs, i as int, width, t as int));
                assert((t as int) * (q + 1) == (t as int) * q + t) by (nonlinear_arith);
                vstd::arithmetic::div_mod::lemma_mod_multiples_vanish(q + 1, 0, t as int);
                assert(width + n == (t as int) * (q + 1) + 0);
                width = width + n;
            }
            phase = 0;
        } else {
            let w = display_width(g);
            let gc = crate::text::chars_of(g);
            let ghost before = out@;
            crate::text::extend_chars(&mut out, &gc);
            let p: u128 = (phase as u128 + w as u128) % (t as u128);
            proof {
                assert(expand_from(cs, i as int, width, t as int) == cs[i as int] + expand_from(cs, i + 1, width + w, t as int));
                assert(out@ + expand_from(cs, i + 1, width + w, t as int) =~= before + expand_from(cs, i as int, width, t as int));
                vstd::arithmetic::div_mod::lemma_mod_multiples_vanish(q, phase + w, t as int);
                assert(width + w == (t as int) * q + (phase + w));
                width = width + w;
            }
            phase = p as usize;
        }
        i = i + 1;
    }
    proof {
        assert(expand_from(cs, i as int, width, t as int) =~= Seq::<char>::empty());
        assert(out@ =~= whole);
    }
    crate::text::string_from(&out)
}

/// The char column after the clusters, from `i` on, that fit in `target`
/// display cells (`cell` already taken, `col` chars in); with `end`, a
/// cluster straddling the target counts as reached.
pub open spec fn column_from(gs: Seq<Seq<char>>, i: int, col: int, cell: int, target: int, end: bool) -> int
    decreases gs.len() - i,
{
    if i < 0 || i >= gs.len() {
        col
    } else {
        let n = str_width(gs[i]) as int;
        if cell + n > target {
            col + if end && cell < target { gs[i].len() as int } else { 0 }
        } else {
            column_from(gs, i + 1, col + gs[i].len(), cell + n, target, end)
        }
    }
}

/// The char column at display cell `target`: the start of the cluster
/// that covers it, or with `end` the end of a cluster straddling it; the
/// line length when the line is narrower.
pub fn column(text: &str, target: usize, end: bool) -> (r: usize)
    ensures
        r as int == column_from(clusters(text@), 0, 0, 0, target as int, end),
{
    let (gs, _lens) = split_clusters(text);
    let ghost cs = clusters(text@);
    let mut col: usize = 0;
    let mut cell: usize = 0;
    let mut i: usize = 0;
    while i < gs.len()
        invariant
            i <= gs@.len(),
            gs@.len() == cs.len(),
            cs == clusters(text@),
            forall|k: int| 0 <= k < gs@.len() ==> (#[trigger] gs@[k])@ == cs[k],
            forall|k: int| 0 <= k < cs.len() ==> (#[trigger] cs[k]).len() > 0,
            sum_lens(cs, cs.len() as int) == text@.len(),
            text@.len() <= usize::MAX,
            col as int == sum_lens(cs, i as int),
            cell <= target,
            column_from(cs, i as int, col as int, cell as int, target as int, end) == column_from(cs, 0, 0, 0, target as int, end),
        decreases gs@.len() - i,
    {
        let g = gs[i].as_str();
        let n = display_width(g);
        let len = crate::text::chars_of(g).len();
        proof {
            lemma_cluster_prefix(cs, i as int, text@.len() as int);
        }
        if n > target - cell {
            if end && cell < target {
                return col + len;
            }
            return col;
        }
        col = col + len;
        cell = cell + n;
        i = i + 1;
    }
    col
}

/// The char column after the clusters, from `i` on, that fit in `target`
/// cells, tabs reaching the next multiple of `t`.
pub open spec fn raw_from(gs: Seq<Seq<char>>, i: int, col: int, cells: int, target: int, t: int) -> int
    decreases gs.len() - i,
{
    if i < 0 || i >= gs.len() {
        col
    } else {
        let w = advance(gs[i], cells, t);
        if cells + w > target {
            col
        } else {
            raw_from(gs, i + 1, col + gs[i].len(), cells + w, target, t)
        }
    }
}

/// The char column at display cell `target` in a line drawn with tabs of
/// width `tab` (at least one): the start of the cluster covering it, the
/// line length when the line is narrower.
pub fn raw_column(text: &str, target: usize, tab: usize) -> (r: usize)
    ensures
        r as int == raw_from(clusters(text@), 0, 0, 0, target as int, tab_stop(tab as int)),
{
    let t: usize = if tab >= 1 { tab } else { 1 };
    let (gs, _lens) = split_clusters(text);
    let ghost cs = clusters(text@);
    let mut col: usize = 0;
    let mut cells: usize = 0;
    let mut i: usize = 0;
    while i < gs.len()
        invariant
            i <= gs@.len(),
            gs@.len() == cs.len(),
            cs == clusters(text@),
            forall|k: int| 0 <= k < gs@.len() ==> (#[trigger] gs@[k])@ == cs[k],
            forall|k: int| 0 <= k < cs.len() ==> (#[trigger] cs[k]).len() > 0,
            sum_lens(cs, cs.len() as int) == text@.len(),
            text@.len() <= usize::MAX,
            t as int == tab_stop(tab as int),
            col as int == sum_lens(cs, i as int),
            cells <= target,
            raw_from(cs, i as int, col as int, cells as int, target as int, t as int) == raw_from(cs, 0, 0, 0, target as int, t as int),
        decreases gs@.len() - i,
    {
        let g = gs[i].as_str();
        let w: usize = if is_tab_str(g) { t - cells % t } else { display_width(g) };
        let len = crate::text::chars_of(g).len();
        proof {
            lemma_cluster_prefix(cs, i as int, text@.len() as int);
        }
        if w > target - cells {
            return col;
        }
        col = col + len;
        cells = cells + w;
        i = i + 1;
    }
    col
}

} // verus!
