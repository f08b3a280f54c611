//! The project file tree: a lazily expanded directory listing. Only the
//! expanded directories are listed, so a huge project costs one listing of
//! its root. Directories come first, then files, each group ordered by
//! lower-cased name; `.git` is never shown, dotfiles and ignored paths
//! only on request, and a live filter narrows the loaded rows by name.
//! Paths are `/`-separated strings as the file system reports them; the
//! listings of the root and of the expanded directories are read by the
//! caller and handed in.
use vstd::prelude::*;
use crate::key::Key;
use crate::order::{entry_view, entry_views, entry_lt, law_sort_is_ordered, lemma_sort_elements, sort_entries, sort_entries_spec};
use crate::order::lex_lt;
use crate::text::{chars_of, chars_eq, copy_range, push_char, string_of, extend_chars, lowercase_str, str_lowercase, string_from, find_seq, find_seq_from, matches_at, starts_at, split_spans, split_spans_from};

verus! {

/// One row of the tree.
#[derive(Debug)]
pub struct Node {
    pub path: String,
    pub name: String,
    pub is_dir: bool,
    pub depth: usize,
}

/// A row's view.
pub struct NodeV {
    pub path: Seq<char>,
    pub name: Seq<char>,
    pub is_dir: bool,
    pub depth: int,
}

pub open spec fn node_view(n: Node) -> NodeV {
    NodeV { path: n.path@, name: n.name@, is_dir: n.is_dir, depth: n.depth as int }
}

pub open spec fn nodes_view(ns: Seq<Node>) -> Seq<NodeV> {
    ns.map_values(|n: Node| node_view(n))
}

/// A directory's listing: its path and its entries (name, whether a
/// directory), as the file system gives them.
pub type Listing = (String, Vec<(String, bool)>);

pub open spec fn entries_view(es: Seq<(String, bool)>) -> Seq<(Seq<char>, bool)> {
    es.map_values(|e: (String, bool)| (e.0@, e.1))
}

pub open spec fn listings_view(ls: Seq<Listing>) -> Seq<(Seq<char>, Seq<(Seq<char>, bool)>)> {
    ls.map_values(|l: Listing| (l.0@, entries_view(l.1@)))
}

/// `name` inside directory `dir`.
pub open spec fn join_path(dir: Seq<char>, name: Seq<char>) -> Seq<char> {
    if dir.len() == 0 {
        name
    } else if dir.last() == '/' {
        dir + name
    } else {
        dir + seq!['/'] + name
    }
}

pub open spec fn git_dir_name() -> Seq<char> {
    seq!['.', 'g', 'i', 't']
}

/// Whether an entry of `dir` is shown: never `.git`; a dotfile only with
/// `show_hidden`; an ignored path only with `show_ignored`.
pub open spec fn shown(dir: Seq<char>, e: (Seq<char>, bool), show_hidden: bool, ignored: Seq<Seq<char>>, show_ignored: bool) -> bool {
    &&& e.0 != git_dir_name()
    &&& show_hidden || !(e.0.len() > 0 && e.0[0] == '.')
    &&& show_ignored || !ignored.contains(join_path(dir, e.0))
}

/// The shown entries of `dir`, in listing order.
pub open spec fn kept_entries(dir: Seq<char>, es: Seq<(Seq<char>, bool)>, show_hidden: bool, ignored: Seq<Seq<char>>, show_ignored: bool) -> Seq<(Seq<char>, bool)> {
    es.filter(|e: (Seq<char>, bool)| shown(dir, e, show_hidden, ignored, show_ignored))
}

/// Sort keys of entries: directories first, then by lower-cased name,
/// carrying their position.
pub open spec fn entry_keys(kept: Seq<(Seq<char>, bool)>) -> Seq<(usize, Seq<char>, usize)> {
    Seq::new(kept.len(), |j: int| (if kept[j].1 { 0usize } else { 1usize }, str_lowercase(kept[j].0), j as usize))
}

/// The rows of directory `dir`: (path, name, is directory), directories
/// first, then by lower-cased name (ties in listing order).
pub open spec fn list_spec(dir: Seq<char>, es: Seq<(Seq<char>, bool)>, show_hidden: bool, ignored: Seq<Seq<char>>, show_ignored: bool) -> Seq<(Seq<char>, Seq<char>, bool)> {
    let kept = kept_entries(dir, es, show_hidden, ignored, show_ignored);
    sort_entries_spec(entry_keys(kept)).map_values(|e: (usize, Seq<char>, usize)| (join_path(dir, kept[e.2 as int].0), kept[e.2 as int].0, kept[e.2 as int].1))
}

/// `name` inside directory `dir`.
fn join(dir: &Vec<char>, name: &Vec<char>) -> (r: Vec<char>)
    ensures
        r@ == join_path(dir@, name@),
{
    let mut r = copy_range(dir, 0, dir.len());
    proof {
        assert(dir@.subrange(0, dir@.len() as int) =~= dir@);
    }
    if dir.len() > 0 && dir[dir.len() - 1] != '/' {
        r.push('/');
    }
    extend_chars(&mut r, name);
    r
}

/// Whether `v` is one of `set`.
pub(crate) fn member(set: &Vec<String>, v: &Vec<char>) -> (r: bool)
    ensures
        r == crate::text::views(set@).contains(v@),
{
    let mut i: usize = 0;
    while i < set.len()
        invariant
            i <= set@.len(),
            forall|j: int| 0 <= j < i ==> set@[j]@ != v@,
        decreases set@.len() - i,
    {
        if chars_eq(&chars_of(set[i].as_str()), v) {
            proof {
                assert(crate::text::views(set@)[i as int] == v@);
            }
            return true;
        }
        i = i + 1;
    }
    proof {
        if crate::text::views(set@).contains(v@) {
            let j = choose|j: int| 0 <= j < crate::text::views(set@).len() && crate::text::views(set@)[j] == v@;
            assert(set@[j]@ == v@);
        }
    }
    false
}

/// The rows of directory `dir` from its listing.
fn list_dir(dir: &Vec<char>, es: &Vec<(String, bool)>, show_hidden: bool, ignored: &Vec<String>, show_ignored: bool) -> (r: Vec<(Vec<char>, Vec<char>, bool)>)
    ensures
        r@.map_values(|x: (Vec<char>, Vec<char>, bool)| (x.0@, x.1@, x.2)) == list_spec(dir@, entries_view(es@), show_hidden, crate::text::views(ignored@), show_ignored),
{
    let ghost ev = entries_view(es@);
    let ghost ig = crate::text::views(ignored@);
    let ghost keep = |e: (Seq<char>, bool)| shown(dir@, e, show_hidden, ig, show_ignored);
    let mut kept: Vec<(Vec<char>, bool)> = Vec::new();
    let mut i: usize = 0;
    while i < es.len()
        invariant
            i <= es@.len(),
            ev == entries_view(es@),
            ig == crate::text::views(ignored@),
            keep == (|e: (Seq<char>, bool)| shown(dir@, e, show_hidden, ig, show_ignored)),
            kept@.map_values(|k: (Vec<char>, bool)| (k.0@, k.1)) == ev.subrange(0, i as int).filter(keep),
        decreases es@.len() - i,
    {
        let name = chars_of(es[i].0.as_str());
        let is_dir = es[i].1;
        let ghost e = (name@, is_dir);
        let mut git: Vec<char> = Vec::new();
        git.push('.');
        git.push('g');
        git.push('i');
        git.push('t');
        proof {
            assert(git@ =~= git_dir_name());
            assert(ev[i as int] == e);
        }
        let path = join(dir, &name);
        let show = !chars_eq(&name, &git) && (show_hidden || !(name.len() > 0 && name[0] == '.'))
            && (show_ignored || !member(ignored, &path));
        proof {
            assert(ev.subrange(0, i + 1) =~= ev.subrange(0, i as int).push(e));
            ev.subrange(0, i as int).lemma_filter_push(e, keep);
        }
        if show {
            let ghost before = kept@;
            kept.push((name, is_dir));
            proof {
                assert(kept@.map_values(|k: (Vec<char>, bool)| (k.0@, k.1)) =~= before.map_values(|k: (Vec<char>, bool)| (k.0@, k.1)).push(e));
            }
        }
        i = i + 1;
    }
    proof {
        assert(ev.subrange(0, es@.len() as int) =~= ev);
    }
    let ghost kv = kept@.map_values(|k: (Vec<char>, bool)| (k.0@, k.1));
    let mut keyed: Vec<(usize, Vec<char>, usize)> = Vec::new();
    let mut j: usize = 0;
    while j < kept.len()
        invariant
            j <= kept@.len(),
            kv == kept@.map_values(|k: (Vec<char>, bool)| (k.0@, k.1)),
            entry_views(keyed@) == entry_keys(kv).subrange(0, j as int),
        decreases kept@.len() - j,
    {
        let low = lowercase_str(string_from(&kept[j].0).as_str());
        let ghost before = keyed@;
        keyed.push((if kept[j].1 { 0 } else { 1 }, chars_of(low.as_str()), j));
        proof {
            assert(kv[j as int] == (kept@[j as int].0@, kept@[j as int].1));
            assert(entry_views(keyed@) =~= entry_views(before).push(entry_keys(kv)[j as int]));
            assert(entry_keys(kv).subrange(0, j + 1) =~= entry_keys(kv).subrange(0, j as int).push(entry_keys(kv)[j as int]));
        }
        j = j + 1;
    }
    proof {
        assert(entry_keys(kv).subrange(0, kv.len() as int) =~= entry_keys(kv));
    }
    let sorted = sort_entries(keyed);
    let ghost sv = sort_entries_spec(entry_keys(kv));
    proof {
        lemma_sort_elements(entry_keys(kv));
    }
    let ghost f = |e: (usize, Seq<char>, usize)| (join_path(dir@, kv[e.2 as int].0), kv[e.2 as int].0, kv[e.2 as int].1);
    let mut out: Vec<(Vec<char>, Vec<char>, bool)> = Vec::new();
    let mut m: usize = 0;
    while m < sorted.len()
        invariant
            m <= sorted@.len(),
            kv == kept@.map_values(|k: (Vec<char>, bool)| (k.0@, k.1)),
            sv == sort_entries_spec(entry_keys(kv)),
            entry_views(sorted@) == sv,
            sv.len() == kv.len(),
            forall|q: int| 0 <= q < kv.len() ==> entry_keys(kv).contains(#[trigger] sv[q]),
            f == (|e: (usize, Seq<char>, usize)| (join_path(dir@, kv[e.2 as int].0), kv[e.2 as int].0, kv[e.2 as int].1)),
            out@.map_values(|x: (Vec<char>, Vec<char>, bool)| (x.0@, x.1@, x.2)) == sv.subrange(0, m as int).map_values(f),
        decreases sorted@.len() - m,
    {
        let idx = sorted[m].2;
        proof {
            assert(sv[m as int] == entry_view(sorted@[m as int]));
            assert(entry_keys(kv).contains(sv[m as int]));
            let w = choose|w: int| 0 <= w < entry_keys(kv).len() && entry_keys(kv)[w] == sv[m as int];
            assert(idx as int == w);
        }
        let name = copy_range(&kept[idx].0, 0, kept[idx].0.len());
        let path = join(dir, &kept[idx].0);
        let ghost before = out@;
        let item = (path, name, kept[idx].1);
        proof {
            assert(kept@[idx as int].0@.subrange(0, kept@[idx as int].0@.len() as int) =~= kept@[idx as int].0@);
            assert(kv[idx as int] == (kept@[idx as int].0@, kept@[idx as int].1));
            assert((item.0@, item.1@, item.2) == f(sv[m as int]));
        }
        out.push(item);
        proof {
            assert(out@.map_values(|x: (Vec<char>, Vec<char>, bool)| (x.0@, x.1@, x.2)) =~= before.map_values(|x: (Vec<char>, Vec<char>, bool)| (x.0@, x.1@, x.2)).push(f(sv[m as int])));
            assert(sv.subrange(0, m + 1).map_values(f) =~= sv.subrange(0, m as int).map_values(f).push(f(sv[m as int])));
        }
        m = m + 1;
    }
    proof {
        assert(sv.subrange(0, sv.len() as int) =~= sv);
    }
    out
}

// ---------------------------------------------------------------- walking

/// The entries of `dir` from the first listing of it, from listing `k` on
/// (none when it was not listed).
pub open spec fn entries_from(ls: Seq<(Seq<char>, Seq<(Seq<char>, bool)>)>, dir: Seq<char>, k: int) -> Seq<(Seq<char>, bool)>
    decreases ls.len() - k,
{
    if k < 0 || k >= ls.len() {
        seq![]
    } else if ls[k].0 == dir {
        ls[k].1
    } else {
        entries_from(ls, dir, k + 1)
    }
}

/// The longest listed directory path.
pub open spec fn max_key_len(ls: Seq<(Seq<char>, Seq<(Seq<char>, bool)>)>) -> int
    decreases ls.len(),
{
    if ls.len() == 0 {
        0
    } else {
        let m = max_key_len(ls.drop_last());
        if ls.last().0.len() > m { ls.last().0.len() as int } else { m }
    }
}

/// What decides which rows show: the expanded directories, and whether
/// dotfiles and ignored paths show.
pub struct TreeOpts {
    pub expanded: Seq<Seq<char>>,
    pub show_hidden: bool,
    pub ignored: Seq<Seq<char>>,
    pub show_ignored: bool,
}

/// The rows under directory `dir`, at `depth`: each shown entry, and below
/// an expanded directory its own rows.
pub open spec fn walk_dir(ls: Seq<(Seq<char>, Seq<(Seq<char>, bool)>)>, dir: Seq<char>, depth: int, o: TreeOpts) -> Seq<NodeV>
    decreases max_key_len(ls) + 1 - dir.len(), 1int, 0int,
{
    if dir.len() > max_key_len(ls) {
        seq![]
    } else {
        walk_rows(ls, dir, list_spec(dir, entries_from(ls, dir, 0), o.show_hidden, o.ignored, o.show_ignored), 0, depth, o)
    }
}

/// The rows of `rows[k..]` of directory `dir` and what they expand to.
pub open spec fn walk_rows(ls: Seq<(Seq<char>, Seq<(Seq<char>, bool)>)>, dir: Seq<char>, rows: Seq<(Seq<char>, Seq<char>, bool)>, k: int, depth: int, o: TreeOpts) -> Seq<NodeV>
    decreases max_key_len(ls) + 1 - dir.len(), 0int, rows.len() - k,
{
    if k < 0 || k >= rows.len() || dir.len() > max_key_len(ls) {
        seq![]
    } else {
        let r = rows[k];
        let node = NodeV { path: r.0, name: r.1, is_dir: r.2, depth: depth };
        let sub = if r.2 && o.expanded.contains(r.0) && dir.len() < r.0.len() && r.0.len() <= max_key_len(ls) {
            walk_dir(ls, r.0, depth + 1, o)
        } else {
            seq![]
        };
        seq![node] + sub + walk_rows(ls, dir, rows, k + 1, depth, o)
    }
}

/// The entries of `dir` in the listings.
fn entries_of<'a>(ls: &'a Vec<Listing>, dir: &Vec<char>) -> (r: Option<&'a Vec<(String, bool)>>)
    ensures
        match r {
            Some(es) => entries_view(es@) == entries_from(listings_view(ls@), dir@, 0),
            None => entries_from(listings_view(ls@), dir@, 0) == Seq::<(Seq<char>, bool)>::empty(),
        },
{
    let ghost lv = listings_view(ls@);
    let mut k: usize = 0;
    while k < ls.len()
        invariant
            k <= ls@.len(),
            lv == listings_view(ls@),
            entries_from(lv, dir@, k as int) == entries_from(lv, dir@, 0),
        decreases ls@.len() - k,
    {
        if chars_eq(&chars_of(ls[k].0.as_str()), dir) {
            proof {
                assert(lv[k as int] == (ls@[k as int].0@, entries_view(ls@[k as int].1@)));
            }
            return Some(&ls[k].1);
        }
        proof {
            assert(lv[k as int].0 == ls@[k as int].0@);
        }
        k = k + 1;
    }
    None
}

/// The longest listed directory path.
fn max_len(ls: &Vec<Listing>) -> (r: usize)
    ensures
        r as int == max_key_len(listings_view(ls@)),
{
    let ghost lv = listings_view(ls@);
    let mut m: usize = 0;
    let mut k: usize = 0;
    proof {
        assert(lv.subrange(0, 0) =~= Seq::<(Seq<char>, Seq<(Seq<char>, bool)>)>::empty());
    }
    while k < ls.len()
        invariant
            k <= ls@.len(),
            lv == listings_view(ls@),
            m as int == max_key_len(lv.subrange(0, k as int)),
        decreases ls@.len() - k,
    {
        let n = chars_of(ls[k].0.as_str()).len();
        proof {
            assert(lv.subrange(0, k + 1).drop_last() =~= lv.subrange(0, k as int));
            assert(lv.subrange(0, k + 1).last() == lv[k as int]);
        }
        if n > m {
            m = n;
        }
        k = k + 1;
    }
    proof {
        assert(lv.subrange(0, ls@.len() as int) =~= lv);
    }
    m
}

fn walk(ls: &Vec<Listing>, maxlen: usize, dir: &Vec<char>, depth: usize, expanded: &Vec<String>, show_hidden: bool, ignored: &Vec<String>, show_ignored: bool, out: &mut Vec<Node>)
    requires
        maxlen as int == max_key_len(listings_view(ls@)),
        depth <= dir@.len(),
    ensures
        nodes_view(final(out)@) == nodes_view(old(out)@) + walk_dir(
            listings_view(ls@),
            dir@,
            depth as int,
            TreeOpts { expanded: crate::text::views(expanded@), show_hidden, ignored: crate::text::views(ignored@), show_ignored },
        ),
    decreases maxlen + 1 - dir@.len(),
{
    let ghost lv = listings_view(ls@);
    let ghost o = TreeOpts { expanded: crate::text::views(expanded@), show_hidden, ignored: crate::text::views(ignored@), show_ignored };
    if dir.len() > maxlen {
        proof {
            assert(nodes_view(out@) =~= nodes_view(out@) + Seq::<NodeV>::empty());
        }
        return;
    }
    let empty: Vec<(String, bool)> = Vec::new();
    let es = match entries_of(ls, dir) {
        Some(e) => e,
        None => &empty,
    };
    proof {
        assert(entries_view(es@) == entries_from(lv, dir@, 0)) by {
            if es@.len() == 0 {
                assert(entries_view(es@) =~= Seq::<(Seq<char>, bool)>::empty());
            }
        }
    }
    let rows = list_dir(dir, es, show_hidden, ignored, show_ignored);
    let ghost rv = rows@.map_values(|x: (Vec<char>, Vec<char>, bool)| (x.0@, x.1@, x.2));
    let ghost base = nodes_view(old(out)@);
    let mut k: usize = 0;
    while k < rows.len()
        invariant
            k <= rows@.len(),
            maxlen as int == max_key_len(lv),
            lv == listings_view(ls@),
            o == (TreeOpts { expanded: crate::text::views(expanded@), show_hidden, ignored: crate::text::views(ignored@), show_ignored }),
            dir@.len() <= maxlen,
            depth <= dir@.len(),
            rv == rows@.map_values(|x: (Vec<char>, Vec<char>, bool)| (x.0@, x.1@, x.2)),
            rv == list_spec(dir@, entries_from(lv, dir@, 0), o.show_hidden, o.ignored, o.show_ignored),
            base == nodes_view(old(out)@),
            nodes_view(out@) + walk_rows(lv, dir@, rv, k as int, depth as int, o) == base + walk_dir(lv, dir@, depth as int, o),
        decreases rows@.len() - k,
    {
        let r = &rows[k];
        let ghost rk = rv[k as int];
        proof {
            assert(rk == (r.0@, r.1@, r.2));
        }
        let node = Node { path: string_from(&r.0), name: string_from(&r.1), is_dir: r.2, depth };
        let ghost before = nodes_view(out@);
        out.push(node);
        proof {
            assert(nodes_view(out@) =~= before.push(NodeV { path: rk.0, name: rk.1, is_dir: rk.2, depth: depth as int }));
        }
        let ghost mid = nodes_view(out@);
        let n = r.0.len();
        let deeper = r.2 && member(expanded, &r.0) && dir.len() < n && n <= maxlen;
        if deeper {
            walk(ls, maxlen, &r.0, depth + 1, expanded, show_hidden, ignored, show_ignored, out);
        }
        proof {
            let sub = if deeper { walk_dir(lv, rk.0, depth + 1, o) } else { seq![] };
            assert(nodes_view(out@) == mid + sub);
            assert(walk_rows(lv, dir@, rv, k as int, depth as int, o) == seq![NodeV { path: rk.0, name: rk.1, is_dir: rk.2, depth: depth as int }] + sub + walk_rows(lv, dir@, rv, k + 1, depth as int, o));
            assert(nodes_view(out@) + walk_rows(lv, dir@, rv, k + 1, depth as int, o) =~= before + walk_rows(lv, dir@, rv, k as int, depth as int, o));
        }
        k = k + 1;
    }
    proof {
        assert(walk_rows(lv, dir@, rv, k as int, depth as int, o) =~= Seq::<NodeV>::empty());
        assert(nodes_view(out@) =~= nodes_view(out@) + walk_rows(lv, dir@, rv, k as int, depth as int, o));
    }
}

// ---------------------------------------------------------------- the tree

/// The file tree's state.
pub struct FileTree {
    pub root: String,
    /// The expanded directories, each once.
    pub expanded: Vec<String>,
    pub cursor: usize,
    pub nodes: Vec<Node>,
    /// Armed by a first delete key on that path; a second one deletes it.
    pub confirm_delete: Option<String>,
    /// Armed by a first trash key on that path; a second one trashes it.
    pub confirm_trash: Option<String>,
    /// A copied (`false`) or cut (`true`) path waiting to be pasted.
    pub clipboard: Option<(String, bool)>,
    pub show_hidden: bool,
    pub bookmarks: Vec<String>,
    /// A live substring filter over the loaded rows.
    pub filter: String,
    pub filter_input: bool,
    /// `git status` letters of changed paths.
    pub git_status: Vec<(String, char)>,
    /// Paths git ignores.
    pub gitignored: Vec<String>,
    pub show_ignored: bool,
}

/// A text option by its plain value.
pub open spec fn opt_view(o: Option<String>) -> Option<Seq<char>> {
    match o {
        Some(x) => Some(x@),
        None => None,
    }
}

/// A file tree by its plain values (see `FileTree`).
pub struct TreeM {
    pub root: Seq<char>,
    pub expanded: Seq<Seq<char>>,
    pub cursor: usize,
    pub nodes: Seq<NodeV>,
    pub confirm_delete: Option<Seq<char>>,
    pub confirm_trash: Option<Seq<char>>,
    pub clipboard: Option<(Seq<char>, bool)>,
    pub show_hidden: bool,
    pub bookmarks: Seq<Seq<char>>,
    pub filter: Seq<char>,
    pub filter_input: bool,
    pub git_status: Seq<(Seq<char>, char)>,
    pub gitignored: Seq<Seq<char>>,
    pub show_ignored: bool,
}

/// Whether row `n` passes filter `q`: its lower-cased name contains the
/// lower-cased filter.
pub open spec fn passes(n: NodeV, q: Seq<char>) -> bool {
    find_seq_from(str_lowercase(n.name), str_lowercase(q), 0) is Some
}

/// The rows that pass a filter (all of them for an empty one).
pub open spec fn filtered(ns: Seq<NodeV>, q: Seq<char>) -> Seq<NodeV> {
    if q.len() == 0 { ns } else { ns.filter(|n: NodeV| passes(n, q)) }
}

/// The cursor kept on a row of `n` rows.
pub open spec fn clamp_cursor(c: usize, n: int) -> usize {
    let last: int = if n > 0 { n - 1 } else { 0 };
    if c <= last { c } else { last as usize }
}

/// The rows a tree with root `root`, options `o` and filter `q` shows.
pub open spec fn tree_rows(ls: Seq<(Seq<char>, Seq<(Seq<char>, bool)>)>, root: Seq<char>, o: TreeOpts, q: Seq<char>) -> Seq<NodeV> {
    filtered(walk_dir(ls, root, 0, o), q)
}

/// The first row showing `path`, from row `k` on.
pub open spec fn row_of(ns: Seq<NodeV>, path: Seq<char>, k: int) -> Option<int>
    decreases ns.len() - k,
{
    if k < 0 || k >= ns.len() {
        None
    } else if ns[k].path == path {
        Some(k)
    } else {
        row_of(ns, path, k + 1)
    }
}

/// A copy of a row.
fn copy_node(n: &Node) -> (r: Node)
    ensures
        node_view(r) == node_view(*n),
{
    Node { path: n.path.clone(), name: n.name.clone(), is_dir: n.is_dir, depth: n.depth }
}

/// The rows that pass filter `q`.
fn filter_rows(all: &Vec<Node>, q: &String) -> (r: Vec<Node>)
    ensures
        nodes_view(r@) == filtered(nodes_view(all@), q@),
{
    let ghost av = nodes_view(all@);
    let mut out: Vec<Node> = Vec::new();
    if q.as_str().is_empty() {
        let mut i: usize = 0;
        while i < all.len()
            invariant
                i <= all@.len(),
                av == nodes_view(all@),
                nodes_view(out@) == av.subrange(0, i as int),
            decreases all@.len() - i,
        {
            let ghost before = nodes_view(out@);
            out.push(copy_node(&all[i]));
            proof {
                assert(nodes_view(out@) =~= before.push(av[i as int]));
                assert(av.subrange(0, i + 1) =~= av.subrange(0, i as int).push(av[i as int]));
            }
            i = i + 1;
        }
        proof {
            assert(av.subrange(0, av.len() as int) =~= av);
        }
        return out;
    }
    let ql = chars_of(lowercase_str(q.as_str()).as_str());
    let ghost keep = |n: NodeV| passes(n, q@);
    let mut i: usize = 0;
    while i < all.len()
        invariant
            i <= all@.len(),
            av == nodes_view(all@),
            ql@ == str_lowercase(q@),
            keep == (|n: NodeV| passes(n, q@)),
            nodes_view(out@) == av.subrange(0, i as int).filter(keep),
        decreases all@.len() - i,
    {
        let nl = chars_of(lowercase_str(all[i].name.as_str()).as_str());
        let hit = find_seq(&nl, &ql, 0).is_some();
        proof {
            assert(av[i as int] == node_view(all@[i as int]));
            assert(hit == passes(av[i as int], q@));
            assert(av.subrange(0, i + 1) =~= av.subrange(0, i as int).push(av[i as int]));
            av.subrange(0, i as int).lemma_filter_push(av[i as int], keep);
        }
        if hit {
            let ghost before = nodes_view(out@);
            out.push(copy_node(&all[i]));
            proof {
                assert(nodes_view(out@) =~= before.push(av[i as int]));
            }
        }
        i = i + 1;
    }
    proof {
        assert(av.subrange(0, av.len() as int) =~= av);
    }
    out
}

impl FileTree {
    /// What decides which rows show.
    pub open spec fn opts(&self) -> TreeOpts {
        TreeOpts {
            expanded: crate::text::views(self.expanded@),
            show_hidden: self.show_hidden,
            ignored: crate::text::views(self.gitignored@),
            show_ignored: self.show_ignored,
        }
    }

    /// The tree by its plain values.
    pub open spec fn model(&self) -> TreeM {
        TreeM {
            root: self.root@,
            expanded: crate::text::views(self.expanded@),
            cursor: self.cursor,
            nodes: nodes_view(self.nodes@),
            confirm_delete: opt_view(self.confirm_delete),
            confirm_trash: opt_view(self.confirm_trash),
            clipboard: match self.clipboard {
                Some((p, cut)) => Some((p@, cut)),
                None => None,
            },
            show_hidden: self.show_hidden,
            bookmarks: crate::text::views(self.bookmarks@),
            filter: self.filter@,
            filter_input: self.filter_input,
            git_status: self.git_status@.map_values(|e: (String, char)| (e.0@, e.1)),
            gitignored: crate::text::views(self.gitignored@),
            show_ignored: self.show_ignored,
        }
    }

    /// Everything but the rows and the cursor is as in `other`.
    pub open spec fn same_settings(&self, other: &FileTree) -> bool {
        &&& self.root@ == other.root@
        &&& self.expanded@ == other.expanded@
        &&& self.keeps_all_but_expanded(other)
    }

    /// Everything but the rows, the cursor and the expanded directories is
    /// as in `other`.
    pub open spec fn keeps_all_but_expanded(&self, other: &FileTree) -> bool {
        &&& self.root@ == other.root@
        &&& self.show_hidden == other.show_hidden
        &&& self.filter@ == other.filter@
        &&& self.gitignored@ == other.gitignored@
        &&& self.show_ignored == other.show_ignored
        &&& opt_view(self.confirm_delete) == opt_view(other.confirm_delete)
        &&& opt_view(self.confirm_trash) == opt_view(other.confirm_trash)
        &&& self.model().clipboard == other.model().clipboard
        &&& self.bookmarks@ == other.bookmarks@
        &&& self.filter_input == other.filter_input
        &&& self.git_status@ == other.git_status@
    }

    /// A tree of `root` with nothing expanded, built from the root's
    /// listing.
    pub fn new(root: String, listings: &Vec<Listing>) -> (t: FileTree)
        ensures
            t.root@ == root@,
            t.expanded@.len() == 0,
            !t.show_hidden,
            !t.show_ignored,
            t.filter@.len() == 0,
            t.gitignored@.len() == 0,
            nodes_view(t.nodes@) == tree_rows(listings_view(listings@), root@, t.opts(), t.filter@),
            t.cursor == 0,
    {
        let mut t = FileTree {
            root,
            expanded: Vec::new(),
            cursor: 0,
            nodes: Vec::new(),
            confirm_delete: None,
            confirm_trash: None,
            clipboard: None,
            show_hidden: false,
            bookmarks: Vec::new(),
            filter: String::new(),
            filter_input: false,
            git_status: Vec::new(),
            gitignored: Vec::new(),
            show_ignored: false,
        };
        t.rebuild(listings);
        t
    }

    /// Lists the rows again from the listings of the root and the
    /// expanded directories: the filter applied, the cursor kept on a row.
    pub fn rebuild(&mut self, listings: &Vec<Listing>)
        ensures
            nodes_view(final(self).nodes@) == tree_rows(listings_view(listings@), old(self).root@, old(self).opts(), old(self).filter@),
            final(self).cursor == clamp_cursor(old(self).cursor, final(self).nodes@.len() as int),
            final(self).same_settings(old(self)),
            final(self).model() == rebuilt_m(old(self).model(), listings_view(listings@)),
    {
        let maxlen = max_len(listings);
        let root = chars_of(self.root.as_str());
        let mut all: Vec<Node> = Vec::new();
        walk(listings, maxlen, &root, 0, &self.expanded, self.show_hidden, &self.gitignored, self.show_ignored, &mut all);
        proof {
            assert(nodes_view(all@) =~= Seq::<NodeV>::empty() + walk_dir(listings_view(listings@), root@, 0, self.opts()));
        }
        let rows = filter_rows(&all, &self.filter);
        self.nodes = rows;
        let n = self.nodes.len();
        let last = if n > 0 { n - 1 } else { 0 };
        if self.cursor > last {
            self.cursor = last;
        }
        assert(self.model() =~= rebuilt_m(old(self).model(), listings_view(listings@)));
    }
}

// ---------------------------------------------------------------- revealing

/// `file` relative to `root`, when it lies under it.
pub open spec fn rel_path(root: Seq<char>, file: Seq<char>) -> Option<Seq<char>> {
    if file == root {
        Some(seq![])
    } else if root.len() > 0 && root.last() == '/' && matches_at(file, 0, root) {
        Some(file.subrange(root.len() as int, file.len() as int))
    } else if matches_at(file, 0, root) && root.len() < file.len() && file[root.len() as int] == '/' {
        Some(file.subrange(root.len() + 1int, file.len() as int))
    } else {
        None
    }
}

/// Whether a piece of a path is a component (not empty, not `.`).
pub open spec fn is_component(c: Seq<char>) -> bool {
    c.len() > 0 && c != seq!['.']
}

/// The components of a relative path.
pub open spec fn components(rel: Seq<char>) -> Seq<Seq<char>> {
    split_spans_from(rel, '/', 0).map_values(|p: (int, int)| rel.subrange(p.0, p.1)).filter(|c: Seq<char>| is_component(c))
}

/// The directories from `cur` down along `comps`, other than `file`.
pub open spec fn ancestor_dirs(cur: Seq<char>, comps: Seq<Seq<char>>, file: Seq<char>) -> Seq<Seq<char>>
    decreases comps.len(),
{
    if comps.len() == 0 {
        seq![]
    } else {
        let next = join_path(cur, comps[0]);
        (if next != file { seq![next] } else { seq![] }) + ancestor_dirs(next, comps.drop_first(), file)
    }
}

/// The directories revealing `file` expands: its ancestors below the root.
pub open spec fn reveal_spec(root: Seq<char>, file: Seq<char>) -> Seq<Seq<char>> {
    match rel_path(root, file) {
        Some(rel) => ancestor_dirs(root, components(rel), file),
        None => seq![],
    }
}

/// `set` with each of `xs` added unless it is there.
pub open spec fn insert_all(set: Seq<Seq<char>>, xs: Seq<Seq<char>>) -> Seq<Seq<char>>
    decreases xs.len(),
{
    if xs.len() == 0 {
        set
    } else {
        insert_all(if set.contains(xs[0]) { set } else { set.push(xs[0]) }, xs.drop_first())
    }
}

fn rel_of(root: &Vec<char>, file: &Vec<char>) -> (r: Option<Vec<char>>)
    ensures
        match r {
            Some(v) => rel_path(root@, file@) == Some(v@),
            None => rel_path(root@, file@) is None,
        },
{
    if chars_eq(file, root) {
        let e: Vec<char> = Vec::new();
        proof {
            assert(e@ =~= Seq::<char>::empty());
        }
        return Some(e);
    }
    let n = root.len();
    let fl = file.len();
    if n > 0 && root[n - 1] == '/' && starts_at(file, 0, root) {
        return Some(copy_range(file, n, fl));
    }
    if starts_at(file, 0, root) && n < fl && file[n] == '/' {
        return Some(copy_range(file, n + 1, fl));
    }
    None
}

/// The components of a relative path.
fn components_of(rel: &Vec<char>) -> (r: Vec<Vec<char>>)
    ensures
        crate::text::char_views(r@) == components(rel@),
{
    let spans = split_spans(rel, '/');
    let ghost sp = split_spans_from(rel@, '/', 0);
    let ghost f = |p: (int, int)| rel@.subrange(p.0, p.1);
    let ghost pieces = sp.map_values(f);
    let ghost keep = |c: Seq<char>| is_component(c);
    let mut out: Vec<Vec<char>> = Vec::new();
    let mut k: usize = 0;
    while k < spans.len()
        invariant
            k <= spans@.len(),
            spans@.len() == sp.len(),
            sp == split_spans_from(rel@, '/', 0),
            forall|m: int| 0 <= m < spans@.len() ==> (#[trigger] spans@[m]).0 as int == sp[m].0 && spans@[m].1 as int == sp[m].1,
            forall|m: int| 0 <= m < spans@.len() ==> (#[trigger] spans@[m]).0 <= spans@[m].1 <= rel@.len(),
            f == (|p: (int, int)| rel@.subrange(p.0, p.1)),
            pieces == sp.map_values(f),
            keep == (|c: Seq<char>| is_component(c)),
            crate::text::char_views(out@) == pieces.subrange(0, k as int).filter(keep),
        decreases spans@.len() - k,
    {
        let (a, b) = spans[k];
        let piece = copy_range(rel, a, b);
        proof {
            assert(pieces[k as int] == piece@);
            assert(pieces.subrange(0, k + 1) =~= pieces.subrange(0, k as int).push(piece@));
            pieces.subrange(0, k as int).lemma_filter_push(piece@, keep);
        }
        let dot = piece.len() == 1 && piece[0] == '.';
        proof {
            if piece@.len() == 1 && piece@ != seq!['.'] {
                assert(piece@[0] != '.') by {
                    if piece@[0] == '.' {
                        assert(piece@ =~= seq!['.']);
                    }
                }
            }
            if dot {
                assert(piece@ =~= seq!['.']);
            }
        }
        if piece.len() > 0 && !dot {
            let ghost before = out@;
            out.push(piece);
            proof {
                assert(crate::text::char_views(out@) =~= crate::text::char_views(before).push(out@[before.len() as int]@));
            }
        }
        k = k + 1;
    }
    proof {
        assert(pieces.subrange(0, sp.len() as int) =~= pieces);
    }
    out
}

/// The directories revealing `file` under `root` expands.
fn reveal_list(root: &Vec<char>, file: &Vec<char>) -> (r: Vec<String>)
    ensures
        crate::text::views(r@) == reveal_spec(root@, file@),
{
    let mut out: Vec<String> = Vec::new();
    match rel_of(root, file) {
        None => {
            proof {
                assert(crate::text::views(out@) =~= Seq::<Seq<char>>::empty());
            }
            out
        },
        Some(rel) => {
            let comps = components_of(&rel);
            let ghost cv = crate::text::char_views(comps@);
            let ghost total = ancestor_dirs(root@, cv, file@);
            let mut cur = copy_range(root, 0, root.len());
            proof {
                assert(root@.subrange(0, root@.len() as int) =~= root@);
                assert(cv.subrange(0, cv.len() as int) =~= cv);
                assert(crate::text::views(out@) =~= Seq::<Seq<char>>::empty());
            }
            let mut k: usize = 0;
            while k < comps.len()
                invariant
                    k <= comps@.len(),
                    cv == crate::text::char_views(comps@),
                    total == ancestor_dirs(root@, cv, file@),
                    crate::text::views(out@) + ancestor_dirs(cur@, cv.subrange(k as int, cv.len() as int), file@) == total,
                decreases comps@.len() - k,
            {
                let next = join(&cur, &comps[k]);
                let ghost rest = cv.subrange(k as int, cv.len() as int);
                proof {
                    assert(rest[0] == comps@[k as int]@);
                    assert(rest.drop_first() =~= cv.subrange(k + 1, cv.len() as int));
                }
                let same = chars_eq(&next, file);
                if !same {
                    let ghost before = crate::text::views(out@);
                    out.push(string_from(&next));
                    proof {
                        assert(crate::text::views(out@) =~= before.push(next@));
                        assert(crate::text::views(out@) + ancestor_dirs(next@, cv.subrange(k + 1, cv.len() as int), file@)
                            =~= before + ancestor_dirs(cur@, rest, file@));
                    }
                } else {
                    proof {
                        assert(crate::text::views(out@) + ancestor_dirs(next@, cv.subrange(k + 1, cv.len() as int), file@)
                            =~= crate::text::views(out@) + ancestor_dirs(cur@, rest, file@));
                    }
                }
                cur = next;
                k = k + 1;
            }
            proof {
                assert(cv.subrange(k as int, cv.len() as int) =~= Seq::<Seq<char>>::empty());
                assert(crate::text::views(out@) =~= total);
            }
            out
        },
    }
}

impl FileTree {
    /// The directories whose listings `rebuild` reads: the root, then the
    /// expanded ones.
    pub fn listed_dirs(&self) -> (r: Vec<String>)
        ensures
            crate::text::views(r@) == seq![self.root@] + crate::text::views(self.expanded@),
    {
        let mut out: Vec<String> = Vec::new();
        out.push(self.root.clone());
        let mut i: usize = 0;
        while i < self.expanded.len()
            invariant
                i <= self.expanded@.len(),
                crate::text::views(out@) == seq![self.root@] + crate::text::views(self.expanded@).subrange(0, i as int),
            decreases self.expanded@.len() - i,
        {
            let ghost before = crate::text::views(out@);
            out.push(self.expanded[i].clone());
            proof {
                assert(crate::text::views(out@) =~= before.push(self.expanded@[i as int]@));
                assert(crate::text::views(self.expanded@).subrange(0, i + 1) =~= crate::text::views(self.expanded@).subrange(0, i as int).push(self.expanded@[i as int]@));
            }
            i = i + 1;
        }
        proof {
            assert(crate::text::views(self.expanded@).subrange(0, self.expanded@.len() as int) =~= crate::text::views(self.expanded@));
        }
        out
    }

    /// The directories `reveal_file` expands for `file`, so their listings can
    /// be read first: the ancestors of `file` below the root.
    pub fn reveal_dirs(&self, file: &str) -> (r: Vec<String>)
        ensures
            crate::text::views(r@) == reveal_spec(self.root@, file@),
    {
        reveal_list(&chars_of(self.root.as_str()), &chars_of(file))
    }

    /// Moves the cursor to the row of `path`, when there is one.
    pub fn select(&mut self, path: &str)
        ensures
            final(self).cursor == match row_of(nodes_view(old(self).nodes@), path@, 0) {
                Some(i) => i as usize,
                None => old(self).cursor,
            },
            nodes_view(final(self).nodes@) == nodes_view(old(self).nodes@),
            final(self).same_settings(old(self)),
    {
        let ghost nv = nodes_view(self.nodes@);
        let p = chars_of(path);
        let mut i: usize = 0;
        while i < self.nodes.len()
            invariant
                i <= self.nodes@.len(),
                nv == nodes_view(self.nodes@),
                nv == nodes_view(old(self).nodes@),
                *self == *old(self),
                p@ == path@,
                row_of(nv, path@, i as int) == row_of(nv, path@, 0),
            decreases self.nodes@.len() - i,
        {
            proof {
                assert(nv[i as int].path == self.nodes@[i as int].path@);
            }
            if chars_eq(&chars_of(self.nodes[i].path.as_str()), &p) {
                self.cursor = i;
                return;
            }
            i = i + 1;
        }
    }

    /// Expands every ancestor of `file` below the root, lists the rows
    /// again from `listings` (which hold the root and the expanded
    /// directories, those of `reveal_dirs` included) and moves the cursor
    /// onto `file`; a file outside the root changes nothing.
    pub fn reveal_file(&mut self, file: &str, listings: &Vec<Listing>)
        ensures
            rel_path(old(self).root@, file@) is None ==> nodes_view(final(self).nodes@) == nodes_view(old(self).nodes@)
                && final(self).cursor == old(self).cursor
                && final(self).same_settings(old(self)),
            rel_path(old(self).root@, file@) is Some ==> ({
                let exp = insert_all(crate::text::views(old(self).expanded@), reveal_spec(old(self).root@, file@));
                let rows = tree_rows(listings_view(listings@), old(self).root@, TreeOpts { expanded: exp, ..old(self).opts() }, old(self).filter@);
                &&& crate::text::views(final(self).expanded@) == exp
                &&& nodes_view(final(self).nodes@) == rows
                &&& final(self).cursor == match row_of(rows, file@, 0) {
                    Some(i) => i as usize,
                    None => clamp_cursor(old(self).cursor, rows.len() as int),
                }
            }),
    {
        let root = chars_of(self.root.as_str());
        let f = chars_of(file);
        if rel_of(&root, &f).is_none() {
            return;
        }
        let dirs = reveal_list(&root, &f);
        let ghost xs = crate::text::views(dirs@);
        let mut k: usize = 0;
        proof {
            assert(xs.subrange(0, xs.len() as int) =~= xs);
        }
        while k < dirs.len()
            invariant
                k <= dirs@.len(),
                xs == crate::text::views(dirs@),
                insert_all(crate::text::views(self.expanded@), xs.subrange(k as int, xs.len() as int))
                    == insert_all(crate::text::views(old(self).expanded@), xs),
                self.root@ == old(self).root@,
                self.show_hidden == old(self).show_hidden,
                self.filter@ == old(self).filter@,
                self.gitignored@ == old(self).gitignored@,
                self.show_ignored == old(self).show_ignored,
                self.cursor == old(self).cursor,
            decreases dirs@.len() - k,
        {
            let d = chars_of(dirs[k].as_str());
            let there = member(&self.expanded, &d);
            let ghost rest = xs.subrange(k as int, xs.len() as int);
            proof {
                assert(rest[0] == dirs@[k as int]@);
                assert(rest.drop_first() =~= xs.subrange(k + 1, xs.len() as int));
            }
            if !there {
                let ghost before = crate::text::views(self.expanded@);
                self.expanded.push(dirs[k].clone());
                proof {
                    assert(crate::text::views(self.expanded@) =~= before.push(dirs@[k as int]@));
                }
            }
            k = k + 1;
        }
        proof {
            assert(xs.subrange(k as int, xs.len() as int) =~= Seq::<Seq<char>>::empty());
        }
        self.rebuild(listings);
        self.select(file);
    }
}

/// The parent directory of a path: everything before its last `/` (the
/// root `/` for a top-level path; empty for a bare name).
pub open spec fn parent_path(p: Seq<char>) -> Seq<char> {
    match crate::text::last_char(p, '/', 0, p.len() as int) {
        Some(i) => if i == 0 { seq!['/'] } else { p.subrange(0, i) },
        None => seq![],
    }
}

/// The directory part of `path` (see `parent_path`).
fn parent_of(path: &str) -> (r: String)
    ensures
        r@ == parent_path(path@),
{
    let p = chars_of(path);
    match crate::text::find_last_char(&p, '/') {
        Some(i) => {
            if i == 0 {
                let mut slash: Vec<char> = Vec::new();
                slash.push('/');
                proof {
                    assert(slash@ =~= seq!['/']);
                }
                string_from(&slash)
            } else {
                string_from(&copy_range(&p, 0, i))
            }
        },
        None => {
            let e: Vec<char> = Vec::new();
            proof {
                assert(e@ =~= Seq::<char>::empty());
            }
            string_from(&e)
        },
    }
}

impl FileTree {
    /// Moves the cursor `delta` rows (up when negative), staying on the
    /// rows; nothing happens without rows.
    pub fn move_cursor(&mut self, delta: isize)
        requires
            delta >= 0 ==> old(self).cursor + delta <= usize::MAX,
        ensures
            final(self).cursor == if old(self).nodes@.len() == 0 {
                old(self).cursor as int
            } else if delta < 0 {
                if old(self).cursor + delta >= 0 { old(self).cursor + delta } else { 0 }
            } else if old(self).cursor + delta <= old(self).nodes@.len() - 1 {
                old(self).cursor + delta
            } else {
                old(self).nodes@.len() - 1
            },
            nodes_view(final(self).nodes@) == nodes_view(old(self).nodes@),
            final(self).same_settings(old(self)),
            final(self).model() == moved_m(old(self).model(), delta as int),
    {
        if self.nodes.len() == 0 {
            assert(self.model() =~= moved_m(old(self).model(), delta as int));
            return;
        }
        let last = self.nodes.len() - 1;
        if delta < 0 {
            let back: usize = if delta == isize::MIN { (isize::MAX as usize) + 1 } else { (-delta) as usize };
            self.cursor = if self.cursor >= back { self.cursor - back } else { 0 };
        } else {
            let c = self.cursor + (delta as usize);
            self.cursor = if c <= last { c } else { last };
        }
        assert(self.model() =~= moved_m(old(self).model(), delta as int));
    }

    /// Where something created at the cursor goes: inside the selected
    /// directory, beside the selected file, at the root without rows.
    pub fn target_dir(&self) -> (r: String)
        ensures
            r@ == if self.cursor < self.nodes@.len() {
                if self.nodes@[self.cursor as int].is_dir {
                    self.nodes@[self.cursor as int].path@
                } else {
                    parent_path(self.nodes@[self.cursor as int].path@)
                }
            } else {
                self.root@
            },
    {
        if self.cursor < self.nodes.len() {
            let n = &self.nodes[self.cursor];
            if n.is_dir {
                return n.path.clone();
            }
            parent_of(n.path.as_str())
        } else {
            self.root.clone()
        }
    }

    /// Expands a collapsed directory or collapses an expanded one (the rows
    /// change on the next `rebuild`).
    pub fn toggle_expanded(&mut self, dir: &str)
        ensures
            crate::text::views(old(self).expanded@).contains(dir@) ==> crate::text::views(final(self).expanded@)
                == crate::text::views(old(self).expanded@).filter(|d: Seq<char>| d != dir@),
            !crate::text::views(old(self).expanded@).contains(dir@) ==> crate::text::views(final(self).expanded@)
                == crate::text::views(old(self).expanded@).push(dir@),
            nodes_view(final(self).nodes@) == nodes_view(old(self).nodes@),
            final(self).cursor == old(self).cursor,
            final(self).root@ == old(self).root@,
            final(self).show_hidden == old(self).show_hidden,
            final(self).filter@ == old(self).filter@,
            final(self).gitignored@ == old(self).gitignored@,
            final(self).show_ignored == old(self).show_ignored,
            final(self).keeps_all_but_expanded(old(self)),
    {
        let e = toggle_member(&self.expanded, dir);
        self.expanded = e;
    }
}

/// `set` with `x` added when absent, removed (every copy) when present.
fn toggle_member(set: &Vec<String>, x: &str) -> (r: Vec<String>)
    ensures
        crate::text::views(r@) == toggled(crate::text::views(set@), x@),
{
    let d = chars_of(x);
    let ghost ev = crate::text::views(set@);
    let ghost keep = |y: Seq<char>| y != x@;
    if !member(set, &d) {
        let mut out = set.clone();
        assert(crate::text::views(out@) =~= ev) by {
            assert forall|k: int| 0 <= k < out@.len() implies #[trigger] out@[k]@ == set@[k]@ by {
                assert(cloned::<String>(set@[k], out@[k]));
            }
        }
        out.push(String::from_str(x));
        proof {
            assert(crate::text::views(out@) =~= ev.push(x@));
        }
        return out;
    }
    let mut kept: Vec<String> = Vec::new();
    let mut i: usize = 0;
    while i < set.len()
        invariant
            i <= set@.len(),
            ev == crate::text::views(set@),
            d@ == x@,
            keep == (|y: Seq<char>| y != x@),
            crate::text::views(kept@) == ev.subrange(0, i as int).filter(keep),
        decreases set@.len() - i,
    {
        let same = chars_eq(&chars_of(set[i].as_str()), &d);
        proof {
            assert(ev[i as int] == set@[i as int]@);
            assert(ev.subrange(0, i + 1) =~= ev.subrange(0, i as int).push(ev[i as int]));
            ev.subrange(0, i as int).lemma_filter_push(ev[i as int], keep);
        }
        if !same {
            let ghost before = crate::text::views(kept@);
            kept.push(set[i].clone());
            proof {
                assert(crate::text::views(kept@) =~= before.push(ev[i as int]));
            }
        }
        i = i + 1;
    }
    proof {
        assert(ev.subrange(0, ev.len() as int) =~= ev);
    }
    kept
}

impl FileTree {
    /// Enter on a row: a directory is expanded or collapsed and the rows
    /// listed again from `listings` (which hold the root, the expanded
    /// directories and this one), the cursor staying on it; a file's path
    /// is returned for the caller to open.
    pub fn activate(&mut self, listings: &Vec<Listing>) -> (r: Option<String>)
        ensures
            final(self).model() == activate_m(old(self).model(), listings_view(listings@)).0,
            opt_view(r) == activate_m(old(self).model(), listings_view(listings@)).1,
            old(self).cursor >= old(self).nodes@.len() ==> r is None && nodes_view(final(self).nodes@) == nodes_view(old(self).nodes@)
                && final(self).cursor == old(self).cursor && final(self).same_settings(old(self)),
            old(self).cursor < old(self).nodes@.len() && !old(self).nodes@[old(self).cursor as int].is_dir ==> (r matches Some(p)
                && p@ == old(self).nodes@[old(self).cursor as int].path@)
                && nodes_view(final(self).nodes@) == nodes_view(old(self).nodes@) && final(self).cursor == old(self).cursor,
            old(self).cursor < old(self).nodes@.len() && old(self).nodes@[old(self).cursor as int].is_dir ==> r is None && ({
                let dir = old(self).nodes@[old(self).cursor as int].path@;
                let ev = crate::text::views(old(self).expanded@);
                let exp = if ev.contains(dir) { ev.filter(|d: Seq<char>| d != dir) } else { ev.push(dir) };
                let rows = tree_rows(listings_view(listings@), old(self).root@, TreeOpts { expanded: exp, ..old(self).opts() }, old(self).filter@);
                &&& crate::text::views(final(self).expanded@) == exp
                &&& nodes_view(final(self).nodes@) == rows
                &&& final(self).cursor == match row_of(rows, dir, 0) {
                    Some(i) => i as usize,
                    None => clamp_cursor(old(self).cursor, rows.len() as int),
                }
            }),
    {
        if self.cursor >= self.nodes.len() {
            return None;
        }
        let c = self.cursor;
        if !self.nodes[c].is_dir {
            return Some(self.nodes[c].path.clone());
        }
        let path = self.nodes[c].path.clone();
        let ghost dirv = old(self).nodes@[c as int].path@;
        let ghost ev = crate::text::views(old(self).expanded@);
        self.toggle_expanded(path.as_str());
        proof {
            assert(path@ == dirv);
            assert((|d: Seq<char>| d != path@) =~= (|d: Seq<char>| d != dirv));
            let exp = if ev.contains(dirv) { ev.filter(|d: Seq<char>| d != dirv) } else { ev.push(dirv) };
            assert(crate::text::views(self.expanded@) == exp);
            assert(self.opts() == (TreeOpts { expanded: exp, ..old(self).opts() }));
        }
        let ghost mid = self.model();
        self.rebuild(listings);
        let ghost after = self.model();
        self.select(path.as_str());
        proof {
            let m0 = old(self).model();
            let m2 = TreeM { expanded: toggled(m0.expanded, dirv), ..m0 };
            assert(mid =~= m2);
            assert(self.model() =~= retoggled_m(m0, dirv, listings_view(listings@)));
        }
        None
    }
}

impl FileTree {
    /// `h` on a row: an expanded directory is collapsed and the rows listed
    /// again from `listings`, the cursor staying on it; on a file or a
    /// collapsed directory the cursor moves to the row of its parent
    /// directory, when that is shown (a path without a parent, `/` or
    /// empty, moves nothing).
    pub fn collapse_or_parent(&mut self, listings: &Vec<Listing>)
        ensures
            final(self).model() == collapse_m(old(self).model(), listings_view(listings@)),
            old(self).cursor >= old(self).nodes@.len() ==> nodes_view(final(self).nodes@) == nodes_view(old(self).nodes@)
                && final(self).cursor == old(self).cursor && final(self).same_settings(old(self)),
            old(self).cursor < old(self).nodes@.len() ==> ({
                let node = old(self).nodes@[old(self).cursor as int];
                let dir = node.path@;
                let ev = crate::text::views(old(self).expanded@);
                if node.is_dir && ev.contains(dir) {
                    let exp = ev.filter(|d: Seq<char>| d != dir);
                    let rows = tree_rows(listings_view(listings@), old(self).root@, TreeOpts { expanded: exp, ..old(self).opts() }, old(self).filter@);
                    &&& crate::text::views(final(self).expanded@) == exp
                    &&& nodes_view(final(self).nodes@) == rows
                    &&& final(self).cursor == match row_of(rows, dir, 0) {
                        Some(i) => i as usize,
                        None => clamp_cursor(old(self).cursor, rows.len() as int),
                    }
                } else {
                    &&& nodes_view(final(self).nodes@) == nodes_view(old(self).nodes@)
                    &&& final(self).same_settings(old(self))
                    &&& final(self).cursor == if dir.len() == 0 || dir == seq!['/'] {
                        old(self).cursor
                    } else {
                        match row_of(nodes_view(old(self).nodes@), parent_path(dir), 0) {
                            Some(i) => i as usize,
                            None => old(self).cursor,
                        }
                    }
                }
            }),
    {
        if self.cursor >= self.nodes.len() {
            return;
        }
        let c = self.cursor;
        let path = self.nodes[c].path.clone();
        let pv = chars_of(path.as_str());
        let ghost dirv = old(self).nodes@[c as int].path@;
        let ghost ev = crate::text::views(old(self).expanded@);
        if self.nodes[c].is_dir && member(&self.expanded, &pv) {
            self.toggle_expanded(path.as_str());
            proof {
                assert(path@ == dirv);
                assert((|d: Seq<char>| d != path@) =~= (|d: Seq<char>| d != dirv));
                let exp = ev.filter(|d: Seq<char>| d != dirv);
                assert(crate::text::views(self.expanded@) == exp);
                assert(self.opts() == (TreeOpts { expanded: exp, ..old(self).opts() }));
            }
            let ghost mid = self.model();
            self.rebuild(listings);
            self.select(path.as_str());
            proof {
                let m0 = old(self).model();
                assert(m0.nodes[c as int].is_dir && m0.expanded.contains(dirv));
                assert(mid =~= TreeM { expanded: toggled(m0.expanded, dirv), ..m0 });
                assert(self.model() =~= retoggled_m(m0, dirv, listings_view(listings@)));
            }
            return;
        }
        if pv.len() == 0 || (pv.len() == 1 && pv[0] == '/') {
            proof {
                if pv.len() == 1 {
                    assert(pv@ =~= seq!['/']);
                }
                assert(self.model() =~= collapse_m(old(self).model(), listings_view(listings@)));
            }
            return;
        }
        proof {
            assert(pv@ != seq!['/']);
        }
        let parent = parent_of(path.as_str());
        self.select(parent.as_str());
        assert(self.model() =~= collapse_m(old(self).model(), listings_view(listings@)));
    }
}

// ---------------------------------------------------------------- the tree's model

/// What decides which rows of a tree model show.
pub open spec fn opts_m(m: TreeM) -> TreeOpts {
    TreeOpts { expanded: m.expanded, show_hidden: m.show_hidden, ignored: m.gitignored, show_ignored: m.show_ignored }
}

/// The rows a tree model shows with the given listings.
pub open spec fn rows_m(m: TreeM, ls: Seq<(Seq<char>, Seq<(Seq<char>, bool)>)>) -> Seq<NodeV> {
    tree_rows(ls, m.root, opts_m(m), m.filter)
}

/// A tree model with its rows listed again, the cursor kept on a row.
pub open spec fn rebuilt_m(m: TreeM, ls: Seq<(Seq<char>, Seq<(Seq<char>, bool)>)>) -> TreeM {
    let rows = rows_m(m, ls);
    TreeM { nodes: rows, cursor: clamp_cursor(m.cursor, rows.len() as int), ..m }
}

/// A tree model with its cursor moved `delta` rows, staying on the rows.
pub open spec fn moved_m(m: TreeM, delta: int) -> TreeM {
    let c: int = if m.nodes.len() == 0 {
        m.cursor as int
    } else if delta < 0 {
        if m.cursor + delta >= 0 { m.cursor + delta } else { 0 }
    } else if m.cursor + delta <= m.nodes.len() - 1 {
        m.cursor + delta
    } else {
        m.nodes.len() - 1
    };
    TreeM { cursor: c as usize, ..m }
}

/// `dir` expanded when collapsed, collapsed when expanded.
pub open spec fn toggled(ev: Seq<Seq<char>>, dir: Seq<char>) -> Seq<Seq<char>> {
    if ev.contains(dir) { ev.filter(|d: Seq<char>| d != dir) } else { ev.push(dir) }
}

/// A tree model with `dir` toggled and the rows listed again, the cursor on
/// `dir`'s row when it shows.
pub open spec fn retoggled_m(m: TreeM, dir: Seq<char>, ls: Seq<(Seq<char>, Seq<(Seq<char>, bool)>)>) -> TreeM {
    let m2 = TreeM { expanded: toggled(m.expanded, dir), ..m };
    let rows = rows_m(m2, ls);
    TreeM {
        nodes: rows,
        cursor: match row_of(rows, dir, 0) {
            Some(i) => i as usize,
            None => clamp_cursor(m.cursor, rows.len() as int),
        },
        ..m2
    }
}

/// Enter on a tree model: a directory toggled, a file's path given back.
pub open spec fn activate_m(m: TreeM, ls: Seq<(Seq<char>, Seq<(Seq<char>, bool)>)>) -> (TreeM, Option<Seq<char>>) {
    if m.cursor >= m.nodes.len() {
        (m, None)
    } else if !m.nodes[m.cursor as int].is_dir {
        (m, Some(m.nodes[m.cursor as int].path))
    } else {
        (retoggled_m(m, m.nodes[m.cursor as int].path, ls), None)
    }
}

/// `h` on a tree model: an expanded directory collapsed, else the cursor
/// on the parent directory's row when it shows.
pub open spec fn collapse_m(m: TreeM, ls: Seq<(Seq<char>, Seq<(Seq<char>, bool)>)>) -> TreeM {
    if m.cursor >= m.nodes.len() {
        m
    } else {
        let node = m.nodes[m.cursor as int];
        if node.is_dir && m.expanded.contains(node.path) {
            retoggled_m(m, node.path, ls)
        } else if node.path.len() == 0 || node.path == seq!['/'] {
            m
        } else {
            match row_of(m.nodes, parent_path(node.path), 0) {
                Some(i) => TreeM { cursor: i as usize, ..m },
                None => m,
            }
        }
    }
}

// ---------------------------------------------------------------- keys

/// What a key in the tree asks of the editor beyond the tree itself.
#[derive(Debug)]
pub enum TreeAction {
    Nothing,
    /// Open this file.
    Open(String),
    /// A first `d` on this path: ask for a second one.
    ArmDelete(String),
    /// A second `d` on this path: delete it.
    Delete(String),
    /// A first `t` on this path: ask for a second one.
    ArmTrash(String),
    /// A second `t` on this path: move it to the trash.
    Trash(String),
    /// This path was copied to the tree's clipboard.
    Copied(String),
    /// This path was cut to the tree's clipboard.
    CutMarked(String),
    /// Paste the clipboard into the cursor's target directory.
    Paste,
    Bookmarked(String),
    Unbookmarked(String),
    /// The filter changed or started: show it and its match count.
    FilterShown,
    /// The rows were listed again: refresh the git status too.
    Refresh,
    /// Open the Ex command line holding this text.
    Command(String),
    /// Close the tree.
    Close,
}

/// What a key asks, by plain values.
pub enum TreeActionV {
    Nothing,
    Open(Seq<char>),
    ArmDelete(Seq<char>),
    Delete(Seq<char>),
    ArmTrash(Seq<char>),
    Trash(Seq<char>),
    Copied(Seq<char>),
    CutMarked(Seq<char>),
    Paste,
    Bookmarked(Seq<char>),
    Unbookmarked(Seq<char>),
    FilterShown,
    Refresh,
    Command(Seq<char>),
    Close,
}

pub open spec fn action_view(a: TreeAction) -> TreeActionV {
    match a {
        TreeAction::Nothing => TreeActionV::Nothing,
        TreeAction::Open(p) => TreeActionV::Open(p@),
        TreeAction::ArmDelete(p) => TreeActionV::ArmDelete(p@),
        TreeAction::Delete(p) => TreeActionV::Delete(p@),
        TreeAction::ArmTrash(p) => TreeActionV::ArmTrash(p@),
        TreeAction::Trash(p) => TreeActionV::Trash(p@),
        TreeAction::Copied(p) => TreeActionV::Copied(p@),
        TreeAction::CutMarked(p) => TreeActionV::CutMarked(p@),
        TreeAction::Paste => TreeActionV::Paste,
        TreeAction::Bookmarked(p) => TreeActionV::Bookmarked(p@),
        TreeAction::Unbookmarked(p) => TreeActionV::Unbookmarked(p@),
        TreeAction::FilterShown => TreeActionV::FilterShown,
        TreeAction::Refresh => TreeActionV::Refresh,
        TreeAction::Command(c) => TreeActionV::Command(c@),
        TreeAction::Close => TreeActionV::Close,
    }
}

/// The path of the row under the cursor, if any.
pub open spec fn cursor_path(m: TreeM) -> Option<Seq<char>> {
    if m.cursor < m.nodes.len() { Some(m.nodes[m.cursor as int].path) } else { None }
}

/// A key while the filter is being typed: Esc clears it and stops typing,
/// Enter stops typing, Backspace and a character edit it (the rows listed
/// again), Up and Down move the cursor.
pub open spec fn filter_key_spec(m: TreeM, key: Key, ls: Seq<(Seq<char>, Seq<(Seq<char>, bool)>)>) -> (TreeM, TreeActionV) {
    match key {
        Key::Esc => (rebuilt_m(TreeM { filter: seq![], filter_input: false, ..m }, ls), TreeActionV::Nothing),
        Key::Enter => (TreeM { filter_input: false, ..m }, TreeActionV::Nothing),
        Key::Backspace => (
            rebuilt_m(TreeM { filter: if m.filter.len() > 0 { m.filter.drop_last() } else { m.filter }, ..m }, ls),
            TreeActionV::FilterShown,
        ),
        Key::Down => (moved_m(m, 1), TreeActionV::Nothing),
        Key::Up => (moved_m(m, -1), TreeActionV::Nothing),
        Key::Char(c) => (rebuilt_m(TreeM { filter: m.filter.push(c), ..m }, ls), TreeActionV::FilterShown),
        _ => (m, TreeActionV::Nothing),
    }
}

/// The two-press confirmations a key leaves standing: a pending delete
/// only for `d`, a pending trash only for `t`.
pub open spec fn disarmed(m: TreeM, key: Key) -> TreeM {
    TreeM {
        confirm_delete: if key == Key::Char('d') { m.confirm_delete } else { None },
        confirm_trash: if key == Key::Char('t') { m.confirm_trash } else { None },
        ..m
    }
}

/// A key in the tree: the tree as it becomes, and what the editor is to
/// do. Movement (`j`/`k`, Ctrl-d/Ctrl-u by ten, Home, End/`G`), `h`,
/// Enter/`o`/`l`, `R`, `.` (dotfiles), `!` (ignored files), `a`/`r`/`:`
/// (the command line), `d`/`t` twice on one path (delete or trash), `y`/`x`
/// (copy or cut), `p`, `m` (bookmark), `/` (filter), `q`/Esc (close).
pub open spec fn tree_key_spec(m: TreeM, key: Key, ls: Seq<(Seq<char>, Seq<(Seq<char>, bool)>)>) -> (TreeM, TreeActionV) {
    if m.filter_input {
        filter_key_spec(m, key, ls)
    } else {
        let d = disarmed(m, key);
        match key {
            Key::Char('j') | Key::Down => (moved_m(d, 1), TreeActionV::Nothing),
            Key::Char('k') | Key::Up => (moved_m(d, -1), TreeActionV::Nothing),
            Key::Ctrl('d') | Key::PageDown => (moved_m(d, 10), TreeActionV::Nothing),
            Key::Ctrl('u') | Key::PageUp => (moved_m(d, -10), TreeActionV::Nothing),
            Key::Home => (TreeM { cursor: 0, ..d }, TreeActionV::Nothing),
            Key::End | Key::Char('G') => (
                TreeM { cursor: if d.nodes.len() > 0 { (d.nodes.len() - 1) as usize } else { 0 }, ..d },
                TreeActionV::Nothing,
            ),
            Key::Char('h') | Key::Left => (collapse_m(d, ls), TreeActionV::Nothing),
            Key::Enter | Key::Char('o') | Key::Char('l') | Key::Right => {
                let a = activate_m(d, ls);
                (a.0, match a.1 { Some(p) => TreeActionV::Open(p), None => TreeActionV::Nothing })
            },
            Key::Char('R') => (rebuilt_m(d, ls), TreeActionV::Refresh),
            Key::Char('.') => (rebuilt_m(TreeM { show_hidden: !d.show_hidden, ..d }, ls), TreeActionV::Nothing),
            Key::Char('!') => (rebuilt_m(TreeM { show_ignored: !d.show_ignored, ..d }, ls), TreeActionV::Nothing),
            Key::Char('a') => (d, TreeActionV::Command("treenew "@)),
            Key::Char('r') => (d, TreeActionV::Command("treerename "@)),
            Key::Char(':') => (d, TreeActionV::Command(seq![])),
            Key::Char('d') => match cursor_path(d) {
                None => (d, TreeActionV::Nothing),
                Some(p) => if d.confirm_delete == Some(p) {
                    (TreeM { confirm_delete: None, ..d }, TreeActionV::Delete(p))
                } else {
                    (TreeM { confirm_delete: Some(p), ..d }, TreeActionV::ArmDelete(p))
                },
            },
            Key::Char('t') => match cursor_path(d) {
                None => (d, TreeActionV::Nothing),
                Some(p) => if d.confirm_trash == Some(p) {
                    (TreeM { confirm_trash: None, ..d }, TreeActionV::Trash(p))
                } else {
                    (TreeM { confirm_trash: Some(p), ..d }, TreeActionV::ArmTrash(p))
                },
            },
            Key::Char('y') => match cursor_path(d) {
                None => (d, TreeActionV::Nothing),
                Some(p) => (TreeM { clipboard: Some((p, false)), ..d }, TreeActionV::Copied(p)),
            },
            Key::Char('x') => match cursor_path(d) {
                None => (d, TreeActionV::Nothing),
                Some(p) => (TreeM { clipboard: Some((p, true)), ..d }, TreeActionV::CutMarked(p)),
            },
            Key::Char('p') => (d, TreeActionV::Paste),
            Key::Char('m') => match cursor_path(d) {
                None => (d, TreeActionV::Nothing),
                Some(p) => (
                    TreeM { bookmarks: toggled(d.bookmarks, p), ..d },
                    if d.bookmarks.contains(p) { TreeActionV::Unbookmarked(p) } else { TreeActionV::Bookmarked(p) },
                ),
            },
            Key::Char('/') => (TreeM { filter_input: true, ..d }, TreeActionV::FilterShown),
            Key::Char('q') | Key::Esc => (d, TreeActionV::Close),
            _ => (d, TreeActionV::Nothing),
        }
    }
}

impl FileTree {
    /// A key while the filter is being typed (see `filter_key_spec`).
    fn filter_key(&mut self, key: Key, listings: &Vec<Listing>) -> (r: TreeAction)
        requires
            old(self).cursor + 1 <= usize::MAX,
        ensures
            final(self).model() == filter_key_spec(old(self).model(), key, listings_view(listings@)).0,
            action_view(r) == filter_key_spec(old(self).model(), key, listings_view(listings@)).1,
    {
        let ghost m = self.model();
        let ghost ls = listings_view(listings@);
        match key {
            Key::Esc => {
                self.filter = String::new();
                self.filter_input = false;
                assert(self.model() =~= TreeM { filter: seq![], filter_input: false, ..m });
                self.rebuild(listings);
                TreeAction::Nothing
            },
            Key::Enter => {
                self.filter_input = false;
                assert(self.model() =~= TreeM { filter_input: false, ..m });
                TreeAction::Nothing
            },
            Key::Backspace => {
                let v = chars_of(self.filter.as_str());
                if v.len() > 0 {
                    self.filter = string_of(&v, 0, v.len() - 1);
                    assert(self.filter@ =~= m.filter.drop_last());
                }
                assert(self.model() =~= TreeM { filter: if m.filter.len() > 0 { m.filter.drop_last() } else { m.filter }, ..m });
                self.rebuild(listings);
                TreeAction::FilterShown
            },
            Key::Down => {
                self.move_cursor(1);
                TreeAction::Nothing
            },
            Key::Up => {
                self.move_cursor(-1);
                TreeAction::Nothing
            },
            Key::Char(c) => {
                push_char(&mut self.filter, c);
                assert(self.model() =~= TreeM { filter: m.filter.push(c), ..m });
                self.rebuild(listings);
                TreeAction::FilterShown
            },
            _ => TreeAction::Nothing,
        }
    }

    /// The path under the cursor, if any.
    fn cursor_path_of(&self) -> (r: Option<String>)
        ensures
            opt_view(r) == cursor_path(self.model()),
    {
        if self.cursor < self.nodes.len() {
            Some(self.nodes[self.cursor].path.clone())
        } else {
            None
        }
    }

    /// A key in the tree (see `tree_key_spec`): the tree changes as far as
    /// the tree alone can, with `listings` (the root's and the expanded
    /// directories', and the one a key expands) for the rows it lists
    /// again; what is left for the editor comes back.
    pub fn on_key(&mut self, key: Key, listings: &Vec<Listing>) -> (r: TreeAction)
        requires
            old(self).cursor + 10 <= usize::MAX,
        ensures
            final(self).model() == tree_key_spec(old(self).model(), key, listings_view(listings@)).0,
            action_view(r) == tree_key_spec(old(self).model(), key, listings_view(listings@)).1,
    {
        if self.filter_input {
            return self.filter_key(key, listings);
        }
        let ghost m0 = self.model();
        if key != Key::Char('d') {
            self.confirm_delete = None;
        }
        if key != Key::Char('t') {
            self.confirm_trash = None;
        }
        let ghost d = disarmed(m0, key);
        assert(self.model() =~= d);
        match key {
            Key::Char('j') | Key::Down => {
                self.move_cursor(1);
                TreeAction::Nothing
            },
            Key::Char('k') | Key::Up => {
                self.move_cursor(-1);
                TreeAction::Nothing
            },
            Key::Ctrl('d') | Key::PageDown => {
                self.move_cursor(10);
                TreeAction::Nothing
            },
            Key::Ctrl('u') | Key::PageUp => {
                self.move_cursor(-10);
                TreeAction::Nothing
            },
            Key::Home => {
                self.cursor = 0;
                assert(self.model() =~= TreeM { cursor: 0, ..d });
                TreeAction::Nothing
            },
            Key::End | Key::Char('G') => {
                let n = self.nodes.len();
                self.cursor = if n > 0 { n - 1 } else { 0 };
                assert(self.model() =~= TreeM { cursor: if d.nodes.len() > 0 { (d.nodes.len() - 1) as usize } else { 0 }, ..d });
                TreeAction::Nothing
            },
            Key::Char('h') | Key::Left => {
                self.collapse_or_parent(listings);
                TreeAction::Nothing
            },
            Key::Enter | Key::Char('o') | Key::Char('l') | Key::Right => {
                match self.activate(listings) {
                    Some(p) => TreeAction::Open(p),
                    None => TreeAction::Nothing,
                }
            },
            Key::Char('R') => {
                self.rebuild(listings);
                TreeAction::Refresh
            },
            Key::Char('.') => {
                self.show_hidden = !self.show_hidden;
                assert(self.model() =~= TreeM { show_hidden: !d.show_hidden, ..d });
                self.rebuild(listings);
                TreeAction::Nothing
            },
            Key::Char('!') => {
                self.show_ignored = !self.show_ignored;
                assert(self.model() =~= TreeM { show_ignored: !d.show_ignored, ..d });
                self.rebuild(listings);
                TreeAction::Nothing
            },
            Key::Char('a') => TreeAction::Command(String::from_str("treenew ")),
            Key::Char('r') => TreeAction::Command(String::from_str("treerename ")),
            Key::Char(':') => {
                let e = String::new();
                assert(e@ =~= Seq::<char>::empty());
                TreeAction::Command(e)
            },
            Key::Char('d') => {
                let p = match self.cursor_path_of() {
                    None => return TreeAction::Nothing,
                    Some(p) => p,
                };
                let armed = match &self.confirm_delete {
                    Some(x) => chars_eq(&chars_of(x.as_str()), &chars_of(p.as_str())),
                    None => false,
                };
                if armed {
                    self.confirm_delete = None;
                    assert(self.model() =~= TreeM { confirm_delete: None, ..d });
                    TreeAction::Delete(p)
                } else {
                    self.confirm_delete = Some(p.clone());
                    assert(self.model() =~= TreeM { confirm_delete: Some(p@), ..d });
                    TreeAction::ArmDelete(p)
                }
            },
            Key::Char('t') => {
                let p = match self.cursor_path_of() {
                    None => return TreeAction::Nothing,
                    Some(p) => p,
                };
                let armed = match &self.confirm_trash {
                    Some(x) => chars_eq(&chars_of(x.as_str()), &chars_of(p.as_str())),
                    None => false,
                };
                if armed {
                    self.confirm_trash = None;
                    assert(self.model() =~= TreeM { confirm_trash: None, ..d });
                    TreeAction::Trash(p)
                } else {
                    self.confirm_trash = Some(p.clone());
                    assert(self.model() =~= TreeM { confirm_trash: Some(p@), ..d });
                    TreeAction::ArmTrash(p)
                }
            },
            Key::Char('y') => {
                let p = match self.cursor_path_of() {
                    None => return TreeAction::Nothing,
                    Some(p) => p,
                };
                self.clipboard = Some((p.clone(), false));
                assert(self.model() =~= TreeM { clipboard: Some((p@, false)), ..d });
                TreeAction::Copied(p)
            },
            Key::Char('x') => {
                let p = match self.cursor_path_of() {
                    None => return TreeAction::Nothing,
                    Some(p) => p,
                };
                self.clipboard = Some((p.clone(), true));
                assert(self.model() =~= TreeM { clipboard: Some((p@, true)), ..d });
                TreeAction::CutMarked(p)
            },
            Key::Char('p') => TreeAction::Paste,
            Key::Char('m') => {
                let p = match self.cursor_path_of() {
                    None => return TreeAction::Nothing,
                    Some(p) => p,
                };
                let was = member(&self.bookmarks, &chars_of(p.as_str()));
                let b = toggle_member(&self.bookmarks, p.as_str());
                self.bookmarks = b;
                assert(self.model() =~= TreeM { bookmarks: toggled(d.bookmarks, p@), ..d });
                if was {
                    TreeAction::Unbookmarked(p)
                } else {
                    TreeAction::Bookmarked(p)
                }
            },
            Key::Char('/') => {
                self.filter_input = true;
                assert(self.model() =~= TreeM { filter_input: true, ..d });
                TreeAction::FilterShown
            },
            Key::Char('q') | Key::Esc => TreeAction::Close,
            _ => TreeAction::Nothing,
        }
    }
}

// ---------------------------------------------------------------- laws

/// Whether a row name may show: never `.git`, a dotfile only with
/// `show_hidden`.
pub open spec fn visible_name(n: Seq<char>, show_hidden: bool) -> bool {
    n != git_dir_name() && (show_hidden || !(n.len() > 0 && n[0] == '.'))
}

/// Whether a row may show under options `o`: its name as `visible_name`
/// says, and an ignored path only while ignored paths show.
pub open spec fn row_shown(n: NodeV, o: TreeOpts) -> bool {
    visible_name(n.name, o.show_hidden) && (o.show_ignored || !o.ignored.contains(n.path))
}

proof fn lemma_filter_subset<A>(s: Seq<A>, pred: spec_fn(A) -> bool)
    ensures
        forall|i: int| 0 <= i < s.filter(pred).len() ==> s.contains(#[trigger] s.filter(pred)[i]),
    decreases s.len(),
{
    reveal(Seq::filter);
    if s.len() > 0 {
        let d = s.drop_last();
        lemma_filter_subset(d, pred);
        let f = s.filter(pred);
        let fd = d.filter(pred);
        assert forall|i: int| 0 <= i < f.len() implies s.contains(#[trigger] f[i]) by {
            if i < fd.len() {
                assert(f[i] == fd[i]);
                assert(d.contains(fd[i]));
                let j = choose|j: int| 0 <= j < d.len() && d[j] == fd[i];
                assert(s[j] == f[i]);
            } else {
                assert(f[i] == s[s.len() - 1]);
            }
        }
    }
}

proof fn lemma_entries_from_bounded(ls: Seq<(Seq<char>, Seq<(Seq<char>, bool)>)>, dir: Seq<char>, k: int)
    requires
        forall|m: int| 0 <= m < ls.len() ==> (#[trigger] ls[m]).1.len() <= usize::MAX,
    ensures
        entries_from(ls, dir, k).len() <= usize::MAX,
    decreases ls.len() - k,
{
    if 0 <= k < ls.len() && ls[k].0 != dir {
        lemma_entries_from_bounded(ls, dir, k + 1);
    }
}

proof fn lemma_list_names(dir: Seq<char>, es: Seq<(Seq<char>, bool)>, sh: bool, ig: Seq<Seq<char>>, si: bool)
    requires
        es.len() <= usize::MAX,
    ensures
        forall|q: int| 0 <= q < list_spec(dir, es, sh, ig, si).len() ==> visible_name((#[trigger] list_spec(dir, es, sh, ig, si)[q]).1, sh)
            && (si || !ig.contains(list_spec(dir, es, sh, ig, si)[q].0)),
{
    let kept = kept_entries(dir, es, sh, ig, si);
    let pred = |e: (Seq<char>, bool)| shown(dir, e, sh, ig, si);
    let keys = entry_keys(kept);
    lemma_sort_elements(keys);
    let l = list_spec(dir, es, sh, ig, si);
    es.lemma_filter_len(pred);
    assert forall|q: int| 0 <= q < l.len() implies visible_name((#[trigger] l[q]).1, sh) && (si || !ig.contains(l[q].0)) by {
        let e = sort_entries_spec(keys)[q];
        assert(keys.contains(e));
        let j = choose|j: int| 0 <= j < keys.len() && keys[j] == e;
        assert(e.2 == j);
        es.lemma_filter_pred(pred, j);
        assert(l[q].1 == kept[j].0);
        assert(l[q].0 == join_path(dir, kept[j].0));
    }
}

proof fn lemma_walk_dir_names(ls: Seq<(Seq<char>, Seq<(Seq<char>, bool)>)>, dir: Seq<char>, depth: int, o: TreeOpts)
    requires
        forall|m: int| 0 <= m < ls.len() ==> (#[trigger] ls[m]).1.len() <= usize::MAX,
    ensures
        forall|i: int| 0 <= i < walk_dir(ls, dir, depth, o).len() ==> row_shown(#[trigger] walk_dir(ls, dir, depth, o)[i], o),
    decreases max_key_len(ls) + 1 - dir.len(), 1int, 0int,
{
    if dir.len() <= max_key_len(ls) {
        let rows = list_spec(dir, entries_from(ls, dir, 0), o.show_hidden, o.ignored, o.show_ignored);
        lemma_entries_from_bounded(ls, dir, 0);
        lemma_list_names(dir, entries_from(ls, dir, 0), o.show_hidden, o.ignored, o.show_ignored);
        lemma_walk_rows_names(ls, dir, rows, 0, depth, o);
        assert(walk_dir(ls, dir, depth, o) == walk_rows(ls, dir, rows, 0, depth, o));
    }
}

proof fn lemma_walk_rows_names(ls: Seq<(Seq<char>, Seq<(Seq<char>, bool)>)>, dir: Seq<char>, rows: Seq<(Seq<char>, Seq<char>, bool)>, k: int, depth: int, o: TreeOpts)
    requires
        forall|q: int| 0 <= q < rows.len() ==> visible_name((#[trigger] rows[q]).1, o.show_hidden) && (o.show_ignored || !o.ignored.contains(rows[q].0)),
        forall|m: int| 0 <= m < ls.len() ==> (#[trigger] ls[m]).1.len() <= usize::MAX,
    ensures
        forall|i: int| 0 <= i < walk_rows(ls, dir, rows, k, depth, o).len() ==> row_shown(#[trigger] walk_rows(ls, dir, rows, k, depth, o)[i], o),
    decreases max_key_len(ls) + 1 - dir.len(), 0int, rows.len() - k,
{
    if !(k < 0 || k >= rows.len() || dir.len() > max_key_len(ls)) {
        let r = rows[k];
        let node = NodeV { path: r.0, name: r.1, is_dir: r.2, depth: depth };
        let deeper = r.2 && o.expanded.contains(r.0) && dir.len() < r.0.len() && r.0.len() <= max_key_len(ls);
        let sub = if deeper { walk_dir(ls, r.0, depth + 1, o) } else { seq![] };
        if deeper {
            lemma_walk_dir_names(ls, r.0, depth + 1, o);
        }
        lemma_walk_rows_names(ls, dir, rows, k + 1, depth, o);
        let rest = walk_rows(ls, dir, rows, k + 1, depth, o);
        let all = seq![node] + sub + rest;
        assert(walk_rows(ls, dir, rows, k, depth, o) == all);
        assert forall|i: int| 0 <= i < all.len() implies row_shown(#[trigger] all[i], o) by {
            if i == 0 {
            } else if i < 1 + sub.len() {
                assert(all[i] == sub[i - 1]);
            } else {
                assert(all[i] == rest[i - 1 - sub.len()]);
            }
        }
    }
}

/// `.git` is never a row, and a dotfile is a row only while dotfiles are
/// shown: whatever is expanded, ignored or filtered.
pub proof fn law_git_and_dotfiles_hidden(ls: Seq<(Seq<char>, Seq<(Seq<char>, bool)>)>, root: Seq<char>, o: TreeOpts, q: Seq<char>)
    requires
        forall|m: int| 0 <= m < ls.len() ==> (#[trigger] ls[m]).1.len() <= usize::MAX,
    ensures
        forall|i: int| 0 <= i < tree_rows(ls, root, o, q).len() ==> {
            let n = #[trigger] tree_rows(ls, root, o, q)[i].name;
            &&& n != git_dir_name()
            &&& !o.show_hidden ==> !(n.len() > 0 && n[0] == '.')
        },
{
    lemma_walk_dir_names(ls, root, 0, o);
    let all = walk_dir(ls, root, 0, o);
    let rows = tree_rows(ls, root, o, q);
    assert forall|i: int| 0 <= i < rows.len() implies visible_name(#[trigger] rows[i].name, o.show_hidden) by {
        lemma_rows_shown(ls, root, o, q, i);
    }
}

proof fn lemma_rows_shown(ls: Seq<(Seq<char>, Seq<(Seq<char>, bool)>)>, root: Seq<char>, o: TreeOpts, q: Seq<char>, i: int)
    requires
        forall|m: int| 0 <= m < ls.len() ==> (#[trigger] ls[m]).1.len() <= usize::MAX,
        0 <= i < tree_rows(ls, root, o, q).len(),
    ensures
        row_shown(tree_rows(ls, root, o, q)[i], o),
{
    lemma_walk_dir_names(ls, root, 0, o);
    let all = walk_dir(ls, root, 0, o);
    let rows = tree_rows(ls, root, o, q);
    if q.len() > 0 {
        let keep = |n: NodeV| passes(n, q);
        lemma_filter_subset(all, keep);
        assert(all.contains(rows[i]));
        let j = choose|j: int| 0 <= j < all.len() && all[j] == rows[i];
        assert(row_shown(all[j], o));
    }
}

/// A path the repository ignores is a row only while ignored paths are
/// shown: whatever is expanded, hidden or filtered.
pub proof fn law_ignored_paths_hidden(ls: Seq<(Seq<char>, Seq<(Seq<char>, bool)>)>, root: Seq<char>, o: TreeOpts, q: Seq<char>)
    requires
        forall|m: int| 0 <= m < ls.len() ==> (#[trigger] ls[m]).1.len() <= usize::MAX,
        !o.show_ignored,
    ensures
        forall|i: int| 0 <= i < tree_rows(ls, root, o, q).len() ==> !o.ignored.contains(#[trigger] tree_rows(ls, root, o, q)[i].path),
{
    assert forall|i: int| 0 <= i < tree_rows(ls, root, o, q).len() implies !o.ignored.contains(#[trigger] tree_rows(ls, root, o, q)[i].path) by {
        lemma_rows_shown(ls, root, o, q, i);
    }
}

/// With a filter, every row shown matches it: its lower-cased name holds
/// the lower-cased filter.
pub proof fn law_filtered_rows_match(ls: Seq<(Seq<char>, Seq<(Seq<char>, bool)>)>, root: Seq<char>, o: TreeOpts, q: Seq<char>)
    requires
        q.len() > 0,
    ensures
        forall|i: int| 0 <= i < tree_rows(ls, root, o, q).len() ==> passes(#[trigger] tree_rows(ls, root, o, q)[i], q),
{
    let all = walk_dir(ls, root, 0, o);
    let keep = |n: NodeV| passes(n, q);
    all.filter_lemma(keep);
}

/// Listing a tree's rows again keeps the cursor on a row (at the last one
/// when it was past it) and changes nothing but the rows and the cursor.
pub proof fn law_rebuild_keeps_settings(m: TreeM, ls: Seq<(Seq<char>, Seq<(Seq<char>, bool)>)>)
    ensures
        rebuilt_m(m, ls).cursor == clamp_cursor(m.cursor, rows_m(m, ls).len() as int),
        rebuilt_m(m, ls).nodes.len() > 0 ==> (rebuilt_m(m, ls).cursor < rebuilt_m(m, ls).nodes.len()),
        (TreeM { nodes: seq![], cursor: 0, ..rebuilt_m(m, ls) }) == (TreeM { nodes: seq![], cursor: 0, ..m }),
{
}

/// A directory's rows are ordered: directories before files, and within
/// each group by lower-cased name.
pub proof fn law_rows_ordered(dir: Seq<char>, es: Seq<(Seq<char>, bool)>, sh: bool, ig: Seq<Seq<char>>, si: bool)
    requires
        es.len() <= usize::MAX,
    ensures
        forall|a: int, b: int| 0 <= a < b < list_spec(dir, es, sh, ig, si).len() ==> {
            let ra = #[trigger] list_spec(dir, es, sh, ig, si)[a];
            let rb = #[trigger] list_spec(dir, es, sh, ig, si)[b];
            &&& rb.2 ==> ra.2
            &&& ra.2 == rb.2 ==> !lex_lt(str_lowercase(rb.1), str_lowercase(ra.1))
        },
{
    let kept = kept_entries(dir, es, sh, ig, si);
    let pred = |e: (Seq<char>, bool)| shown(dir, e, sh, ig, si);
    es.lemma_filter_len(pred);
    let keys = entry_keys(kept);
    let srt = sort_entries_spec(keys);
    lemma_sort_elements(keys);
    law_sort_is_ordered(keys);
    let l = list_spec(dir, es, sh, ig, si);
    assert forall|a: int, b: int| 0 <= a < b < l.len() implies {
        let ra = #[trigger] l[a];
        let rb = #[trigger] l[b];
        &&& rb.2 ==> ra.2
        &&& ra.2 == rb.2 ==> !lex_lt(str_lowercase(rb.1), str_lowercase(ra.1))
    } by {
        let ea = srt[a];
        let eb = srt[b];
        assert(keys.contains(ea));
        assert(keys.contains(eb));
        let ja = choose|j: int| 0 <= j < keys.len() && keys[j] == ea;
        let jb = choose|j: int| 0 <= j < keys.len() && keys[j] == eb;
        assert(ea.2 == ja && eb.2 == jb);
        assert(l[a] == (join_path(dir, kept[ja].0), kept[ja].0, kept[ja].1));
        assert(l[b] == (join_path(dir, kept[jb].0), kept[jb].0, kept[jb].1));
        assert(!entry_lt(eb, ea));
    }
}



/// Whether a row (directory flag `bd`, name `bn`) may follow its sibling
/// (`ad`, `an`): directories before files, and within each kind by
/// lower-cased name.
pub open spec fn sibling_order(ad: bool, an: Seq<char>, bd: bool, bn: Seq<char>) -> bool {
    &&& bd ==> ad
    &&& ad == bd ==> !lex_lt(str_lowercase(bn), str_lowercase(an))
}

/// Whether rows `i < j` of `ns` are siblings: at one depth, with only
/// deeper rows between them.
pub open spec fn siblings(ns: Seq<NodeV>, i: int, j: int) -> bool {
    &&& 0 <= i < j < ns.len()
    &&& ns[i].depth == ns[j].depth
    &&& forall|k: int| i < k < j ==> (#[trigger] ns[k]).depth > ns[i].depth
}

/// Whether a directory's rows are in sibling order, each pair of them.
pub open spec fn rows_in_order(rows: Seq<(Seq<char>, Seq<char>, bool)>) -> bool {
    forall|a: int, b: int| 0 <= a < b < rows.len() ==> sibling_order((#[trigger] rows[a]).2, rows[a].1, (#[trigger] rows[b]).2, rows[b].1)
}

proof fn lemma_walk_dir_depth(ls: Seq<(Seq<char>, Seq<(Seq<char>, bool)>)>, dir: Seq<char>, depth: int, o: TreeOpts)
    ensures
        forall|i: int| 0 <= i < walk_dir(ls, dir, depth, o).len() ==> (#[trigger] walk_dir(ls, dir, depth, o)[i]).depth >= depth,
    decreases max_key_len(ls) + 1 - dir.len(), 1int, 0int,
{
    if dir.len() <= max_key_len(ls) {
        let rows = list_spec(dir, entries_from(ls, dir, 0), o.show_hidden, o.ignored, o.show_ignored);
        lemma_walk_rows_depth(ls, dir, rows, 0, depth, o);
    }
}

proof fn lemma_walk_rows_depth(ls: Seq<(Seq<char>, Seq<(Seq<char>, bool)>)>, dir: Seq<char>, rows: Seq<(Seq<char>, Seq<char>, bool)>, k: int, depth: int, o: TreeOpts)
    ensures
        forall|i: int| 0 <= i < walk_rows(ls, dir, rows, k, depth, o).len() ==> (#[trigger] walk_rows(ls, dir, rows, k, depth, o)[i]).depth >= depth,
        walk_rows(ls, dir, rows, k, depth, o).len() > 0 ==> {
            let n = walk_rows(ls, dir, rows, k, depth, o)[0];
            &&& 0 <= k < rows.len()
            &&& n.depth == depth
            &&& n.is_dir == rows[k].2
            &&& n.name == rows[k].1
        },
    decreases max_key_len(ls) + 1 - dir.len(), 0int, rows.len() - k,
{
    if !(k < 0 || k >= rows.len() || dir.len() > max_key_len(ls)) {
        let r = rows[k];
        let node = NodeV { path: r.0, name: r.1, is_dir: r.2, depth: depth };
        let deeper = r.2 && o.expanded.contains(r.0) && dir.len() < r.0.len() && r.0.len() <= max_key_len(ls);
        let sub = if deeper { walk_dir(ls, r.0, depth + 1, o) } else { seq![] };
        if deeper {
            lemma_walk_dir_depth(ls, r.0, depth + 1, o);
        }
        lemma_walk_rows_depth(ls, dir, rows, k + 1, depth, o);
        let rest = walk_rows(ls, dir, rows, k + 1, depth, o);
        let all = seq![node] + sub + rest;
        assert(walk_rows(ls, dir, rows, k, depth, o) == all);
        assert forall|i: int| 0 <= i < all.len() implies (#[trigger] all[i]).depth >= depth by {
            if i == 0 {
            } else if i < 1 + sub.len() {
                assert(all[i] == sub[i - 1]);
            } else {
                assert(all[i] == rest[i - 1 - sub.len()]);
            }
        }
    }
}

proof fn lemma_walk_dir_siblings(ls: Seq<(Seq<char>, Seq<(Seq<char>, bool)>)>, dir: Seq<char>, depth: int, o: TreeOpts)
    requires
        forall|m: int| 0 <= m < ls.len() ==> (#[trigger] ls[m]).1.len() <= usize::MAX,
    ensures
        forall|i: int, j: int| siblings(walk_dir(ls, dir, depth, o), i, j) ==> sibling_order(
            (#[trigger] walk_dir(ls, dir, depth, o)[i]).is_dir, walk_dir(ls, dir, depth, o)[i].name,
            (#[trigger] walk_dir(ls, dir, depth, o)[j]).is_dir, walk_dir(ls, dir, depth, o)[j].name),
    decreases max_key_len(ls) + 1 - dir.len(), 1int, 0int,
{
    if dir.len() <= max_key_len(ls) {
        let es = entries_from(ls, dir, 0);
        let rows = list_spec(dir, es, o.show_hidden, o.ignored, o.show_ignored);
        lemma_entries_from_bounded(ls, dir, 0);
        law_rows_ordered(dir, es, o.show_hidden, o.ignored, o.show_ignored);
        assert(rows_in_order(rows));
        lemma_walk_rows_siblings(ls, dir, rows, 0, depth, o);
        assert(walk_dir(ls, dir, depth, o) == walk_rows(ls, dir, rows, 0, depth, o));
    }
}

proof fn lemma_walk_rows_siblings(ls: Seq<(Seq<char>, Seq<(Seq<char>, bool)>)>, dir: Seq<char>, rows: Seq<(Seq<char>, Seq<char>, bool)>, k: int, depth: int, o: TreeOpts)
    requires
        forall|m: int| 0 <= m < ls.len() ==> (#[trigger] ls[m]).1.len() <= usize::MAX,
        rows_in_order(rows),
    ensures
        forall|i: int, j: int| siblings(walk_rows(ls, dir, rows, k, depth, o), i, j) ==> sibling_order(
            (#[trigger] walk_rows(ls, dir, rows, k, depth, o)[i]).is_dir, walk_rows(ls, dir, rows, k, depth, o)[i].name,
            (#[trigger] walk_rows(ls, dir, rows, k, depth, o)[j]).is_dir, walk_rows(ls, dir, rows, k, depth, o)[j].name),
    decreases max_key_len(ls) + 1 - dir.len(), 0int, rows.len() - k,
{
    if !(k < 0 || k >= rows.len() || dir.len() > max_key_len(ls)) {
        let r = rows[k];
        let node = NodeV { path: r.0, name: r.1, is_dir: r.2, depth: depth };
        let deeper = r.2 && o.expanded.contains(r.0) && dir.len() < r.0.len() && r.0.len() <= max_key_len(ls);
        let sub = if deeper { walk_dir(ls, r.0, depth + 1, o) } else { seq![] };
        if deeper {
            lemma_walk_dir_depth(ls, r.0, depth + 1, o);
            lemma_walk_dir_siblings(ls, r.0, depth + 1, o);
        }
        lemma_walk_rows_depth(ls, dir, rows, k + 1, depth, o);
        lemma_walk_rows_siblings(ls, dir, rows, k + 1, depth, o);
        let rest = walk_rows(ls, dir, rows, k + 1, depth, o);
        let all = seq![node] + sub + rest;
        assert(walk_rows(ls, dir, rows, k, depth, o) == all);
        let s0: int = 1 + sub.len() as int;
        assert forall|i: int, j: int| siblings(all, i, j) implies sibling_order(
            (#[trigger] all[i]).is_dir, all[i].name, (#[trigger] all[j]).is_dir, all[j].name) by {
            if i == 0 {
                if j < s0 {
                    assert(all[j] == sub[j - 1]);
                } else if j > s0 {
                    assert(all[s0] == rest[0]);
                    assert(i < s0 < j);
                } else {
                    assert(all[j] == rest[0]);
                    assert(rest[0].is_dir == rows[k + 1].2 && rest[0].name == rows[k + 1].1);
                    assert(sibling_order(rows[k].2, rows[k].1, rows[k + 1].2, rows[k + 1].1));
                }
            } else if i < s0 {
                assert(all[i] == sub[i - 1]);
                if j < s0 {
                    assert(all[j] == sub[j - 1]);
                    assert forall|m: int| i - 1 < m < j - 1 implies (#[trigger] sub[m]).depth > sub[i - 1].depth by {
                        assert(all[m + 1] == sub[m]);
                    }
                    assert(siblings(sub, i - 1, j - 1));
                } else if j > s0 {
                    assert(all[s0] == rest[0]);
                    assert(i < s0 < j);
                } else {
                    assert(all[j] == rest[0]);
                }
            } else {
                assert(all[i] == rest[i - s0]);
                assert(all[j] == rest[j - s0]);
                assert forall|m: int| i - s0 < m < j - s0 implies (#[trigger] rest[m]).depth > rest[i - s0].depth by {
                    assert(all[m + s0] == rest[m]);
                }
                assert(siblings(rest, i - s0, j - s0));
            }
        }
    }
}

/// Across the whole tree, siblings keep their directory's order:
/// directories before files, and within each kind by lower-cased name,
/// however deep the directory and whatever is expanded between them.
pub proof fn law_siblings_ordered(ls: Seq<(Seq<char>, Seq<(Seq<char>, bool)>)>, root: Seq<char>, o: TreeOpts)
    requires
        forall|m: int| 0 <= m < ls.len() ==> (#[trigger] ls[m]).1.len() <= usize::MAX,
    ensures
        forall|i: int, j: int| siblings(tree_rows(ls, root, o, seq![]), i, j) ==> sibling_order(
            (#[trigger] tree_rows(ls, root, o, seq![])[i]).is_dir, tree_rows(ls, root, o, seq![])[i].name,
            (#[trigger] tree_rows(ls, root, o, seq![])[j]).is_dir, tree_rows(ls, root, o, seq![])[j].name),
{
    lemma_walk_dir_siblings(ls, root, 0, o);
    assert(tree_rows(ls, root, o, seq![]) == walk_dir(ls, root, 0, o));
}

proof fn lemma_filter_distinct_by(s: Seq<Seq<char>>, p: spec_fn(Seq<char>) -> bool)
    requires
        s.no_duplicates(),
    ensures
        s.filter(p).no_duplicates(),
    decreases s.len(),
{
    if s.len() > 0 {
        let t = s.drop_last();
        let e = s.last();
        assert(s =~= t.push(e));
        assert(t.no_duplicates()) by {
            assert forall|i: int, j: int| 0 <= i < t.len() && 0 <= j < t.len() && i != j implies t[i] != t[j] by {
                assert(t[i] == s[i] && t[j] == s[j]);
            }
        }
        lemma_filter_distinct_by(t, p);
        t.lemma_filter_push(e, p);
        if p(e) {
            assert(!t.filter(p).contains(e)) by {
                if t.filter(p).contains(e) {
                    t.lemma_filter_contains_rev(p, e);
                    let k = choose|k: int| 0 <= k < t.len() && t[k] == e;
                    assert(s[k] == s[s.len() - 1]);
                }
            }
        }
    } else {
        assert(s.filter(p) =~= Seq::<Seq<char>>::empty()) by {
            reveal_with_fuel(Seq::filter, 1);
        }
    }
}

proof fn lemma_filter_keeps_all_by(s: Seq<Seq<char>>, p: spec_fn(Seq<char>) -> bool)
    requires
        forall|k: int| 0 <= k < s.len() ==> p(#[trigger] s[k]),
    ensures
        s.filter(p) == s,
    decreases s.len(),
{
    if s.len() > 0 {
        let t = s.drop_last();
        assert(s =~= t.push(s.last()));
        assert forall|k: int| 0 <= k < t.len() implies p(#[trigger] t[k]) by {
            assert(t[k] == s[k]);
        }
        lemma_filter_keeps_all_by(t, p);
        t.lemma_filter_push(s.last(), p);
        assert(p(s[s.len() - 1]));
    } else {
        assert(s.filter(p) =~= s) by {
            reveal_with_fuel(Seq::filter, 1);
        }
    }
}

/// Facts about filtering a directory list by any predicate.
proof fn lemma_filters(s: Seq<Seq<char>>)
    ensures
        s.no_duplicates() ==> forall|p: spec_fn(Seq<char>) -> bool| #[trigger] s.filter(p).no_duplicates(),
        forall|p: spec_fn(Seq<char>) -> bool, x: Seq<char>| #[trigger] s.filter(p).contains(x) <==> (s.contains(x) && p(x)),
        forall|p: spec_fn(Seq<char>) -> bool| (forall|k: int| 0 <= k < s.len() ==> p(#[trigger] s[k])) ==> #[trigger] s.filter(p) == s,
{
    if s.no_duplicates() {
        assert forall|p: spec_fn(Seq<char>) -> bool| #[trigger] s.filter(p).no_duplicates() by {
            lemma_filter_distinct_by(s, p);
        }
    }
    assert forall|p: spec_fn(Seq<char>) -> bool, x: Seq<char>| #[trigger] s.filter(p).contains(x) <==> (s.contains(x) && p(x)) by {
        if s.filter(p).contains(x) {
            s.lemma_filter_contains_rev(p, x);
            let k = choose|k: int| 0 <= k < s.filter(p).len() && s.filter(p)[k] == x;
            s.lemma_filter_pred(p, k);
        }
        if s.contains(x) && p(x) {
            let i = choose|i: int| 0 <= i < s.len() && s[i] == x;
            s.lemma_filter_contains(p, i);
        }
    }
    assert forall|p: spec_fn(Seq<char>) -> bool| (forall|k: int| 0 <= k < s.len() ==> p(#[trigger] s[k])) implies #[trigger] s.filter(p) == s by {
        lemma_filter_keeps_all_by(s, p);
    }
}

/// Opening or closing a directory keeps every expanded directory listed
/// once.
pub proof fn law_toggle_keeps_expanded_distinct(expanded: Seq<Seq<char>>, dir: Seq<char>)
    requires
        expanded.no_duplicates(),
    ensures
        toggled(expanded, dir).no_duplicates(),
{
    lemma_filters(expanded);
    if !expanded.contains(dir) {
        let e2 = expanded.push(dir);
        assert forall|i: int, j: int| 0 <= i < e2.len() && 0 <= j < e2.len() && i != j
            implies e2[i] != e2[j] by {
            if i < expanded.len() && j < expanded.len() {
            } else if i < expanded.len() {
                assert(expanded.contains(expanded[i]));
            } else {
                assert(expanded.contains(expanded[j]));
            }
        }
    }
}

/// Toggling a directory twice leaves the same directories expanded.
pub proof fn law_toggle_twice(expanded: Seq<Seq<char>>, dir: Seq<char>)
    requires
        expanded.no_duplicates(),
    ensures
        toggled(toggled(expanded, dir), dir).to_set() == expanded.to_set(),
{
    lemma_filters(expanded);
    let t = toggled(expanded, dir);
    if expanded.contains(dir) {
        assert(!t.contains(dir));
        assert forall|x: Seq<char>| #[trigger] t.push(dir).to_set().contains(x) == expanded.to_set().contains(x) by {
            if t.push(dir).contains(x) {
                let k = choose|k: int| 0 <= k < t.push(dir).len() && t.push(dir)[k] == x;
                if k < t.len() {
                    assert(t[k] == x);
                }
            }
            if x == dir {
                assert(t.push(dir)[t.len() as int] == dir);
            } else if t.contains(x) {
                let k = choose|k: int| 0 <= k < t.len() && t[k] == x;
                assert(t.push(dir)[k] == x);
            }
        }
        assert(t.push(dir).to_set() =~= expanded.to_set());
    } else {
        assert(t.contains(dir)) by {
            assert(t[expanded.len() as int] == dir);
        }
        lemma_filters(t);
        assert(t.drop_last() =~= expanded);
        assert forall|x: Seq<char>| #[trigger] toggled(t, dir).to_set().contains(x) == expanded.to_set().contains(x) by {
            if expanded.contains(x) {
                let k = choose|k: int| 0 <= k < expanded.len() && expanded[k] == x;
                assert(t[k] == x);
            }
            if t.contains(x) && x != dir {
                let k = choose|k: int| 0 <= k < t.len() && t[k] == x;
                if k == expanded.len() {
                    assert(t[k] == dir);
                } else {
                    assert(expanded[k] == x);
                }
            }
        }
        assert(toggled(t, dir).to_set() =~= expanded.to_set());
    }
}

} // verus!
