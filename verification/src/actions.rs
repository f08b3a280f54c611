//! The leader-key action registry: every leader command has one id, title
//! and default key sequence here. Leader dispatch, the `:keymaps` picker and
//! the which-key popup are all generated from this one table.
use vstd::prelude::*;
use crate::text::{chars_of, chars_eq, starts_at};
use crate::order::{entry_view, entry_views, lemma_sort_elements, sort_entries, sort_entries_spec};

verus! {

/// One leader command: its stable id, its title and its default key
/// sequence (without the leader key).
#[derive(Clone, Copy)]
pub struct Action {
    pub id: &'static str,
    pub title: &'static str,
    pub keys: &'static str,
}

/// What a (possibly partial) leader sequence resolves to.
#[derive(Debug, Clone, Copy, PartialEq, Eq, Structural)]
pub enum Lookup {
    Ran,
    Prefix,
    NoMatch,
}

/// How a leader sequence resolves against a table: the first action whose
/// keys equal it, else a prefix of some action's keys, else nothing.
#[derive(Debug, Clone, Copy, PartialEq, Eq, Structural)]
pub enum Resolved {
    Exact(usize),
    Prefix,
    NoMatch,
}

/// The first index in `t[from..]` whose keys are exactly `seq`.
pub open spec fn first_exact(t: Seq<Action>, seq: Seq<char>, from: int) -> Option<int>
    decreases t.len() - from,
{
    if from < 0 || from >= t.len() {
        None
    } else if t[from].keys@ == seq {
        Some(from)
    } else {
        first_exact(t, seq, from + 1)
    }
}

/// What `seq` resolves to in `t`.
pub open spec fn resolve_spec(t: Seq<Action>, seq: Seq<char>) -> Resolved {
    match first_exact(t, seq, 0) {
        Some(i) => Resolved::Exact(i as usize),
        None => if exists|i: int| 0 <= i < t.len() && seq.is_prefix_of(#[trigger] t[i].keys@) {
            Resolved::Prefix
        } else {
            Resolved::NoMatch
        },
    }
}

/// The default leader actions.
pub fn actions() -> (r: Vec<Action>)
    ensures
        r@.len() == 43,
{
    vec![
        Action { id: "review.note", title: "New line/range review note", keys: "rc" },
        Action { id: "review.note_file", title: "New file review note", keys: "rf" },
        Action { id: "review.list", title: "List review notes", keys: "rl" },
        Action { id: "review.save", title: "Save review notes", keys: "rw" },
        Action { id: "quickfix.open", title: "Open quickfix", keys: "cq" },
        Action { id: "lsp.diagnostics", title: "Diagnostics list", keys: "ld" },
        Action { id: "lsp.format", title: "Format buffer (or Visual selection)", keys: "lf" },
        Action { id: "lsp.document_highlight", title: "Highlight other occurrences of the symbol under the cursor", keys: "lh" },
        Action { id: "lsp.document_links", title: "Document links; Enter opens or copies one", keys: "ll" },
        Action { id: "lsp.code_lens", title: "Code lenses; Enter runs one (also shown as virtual text)", keys: "lc" },
        Action { id: "lsp.inlay_hints", title: "Show inlay hints inline; Esc clears them", keys: "li" },
        Action { id: "lsp.rename", title: "Rename symbol", keys: "lr" },
        Action { id: "lsp.actions", title: "Code actions", keys: "la" },
        Action { id: "lsp.organize_imports", title: "Organize imports (applies directly, no picker)", keys: "lI" },
        Action { id: "lsp.outline", title: "Document outline", keys: "lo" },
        Action { id: "lsp.outline_sidebar", title: "Toggle outline sidebar", keys: "lO" },
        Action { id: "lsp.references", title: "References", keys: "lR" },
        Action { id: "lsp.signature", title: "Signature help", keys: "ls" },
        Action { id: "lsp.workspace_symbols", title: "Workspace symbols", keys: "lw" },
        Action { id: "window.vsplit_preview", title: "Vertical split + Markdown preview", keys: "ms" },
        Action { id: "file.write", title: "Write current buffer", keys: "w" },
        Action { id: "file.quit", title: "Quit (checked)", keys: "q" },
        Action { id: "file.quit_force", title: "Quit without saving", keys: "Q" },
        Action { id: "search.clear_highlight", title: "Clear search highlight", keys: "h" },
        Action { id: "edit.delete_blackhole", title: "Delete to black-hole register", keys: "d" },
        Action { id: "option.toggle_wrap", title: "Toggle line wrap", keys: "ow" },
        Action { id: "option.toggle_relativenumber", title: "Toggle relative line numbers", keys: "or" },
        Action { id: "option.cursorline_info", title: "Show cursorline hint", keys: "ol" },
        Action { id: "config.reload", title: "Reload config + restart LSP", keys: "R" },
        Action { id: "explorer.toggle", title: "Toggle file tree sidebar", keys: "ft" },
        Action { id: "file.picker", title: "Project file picker", keys: "e" },
        Action { id: "file.recent", title: "Recent files", keys: "fr" },
        Action { id: "file.picker_alt", title: "Project file picker", keys: "ff" },
        Action { id: "markdown.preview_toggle", title: "Toggle Markdown preview", keys: "mp" },
        Action { id: "buffer.list", title: "Buffer list", keys: "b" },
        Action { id: "search.grep", title: "Live grep", keys: "/" },
        Action { id: "git.permalink", title: "Copy GitHub permalink (cursor line / Visual selection)", keys: "gp" },
        Action { id: "git.hunk_preview", title: "Preview the saved hunk under the cursor", keys: "gh" },
        Action { id: "git.blame_toggle", title: "Toggle line-blame virtual text", keys: "gB" },
        Action { id: "git.hunk_reset", title: "Reset the saved hunk under the cursor to HEAD", keys: "gx" },
        Action { id: "search.grep_word", title: "Live grep word under cursor / selection", keys: "gw" },
        Action { id: "edit.select_all", title: "Select entire buffer", keys: "a" },
        Action { id: "ui.zen_toggle", title: "Toggle zen (line numbers)", keys: "z" },
    ]
}

/// Resolves a completed or partial leader sequence (without the leader key
/// itself, e.g. `"rc"` for `,rc`). An exact match wins even if it is also
/// a prefix of a longer binding, matching Vim's own tie-break.
pub fn resolve(table: &[Action], seq: &str) -> (r: Resolved)
    ensures
        r == resolve_spec(table@, seq@),
{
    let s = chars_of(seq);
    let mut i: usize = 0;
    while i < table.len()
        invariant
            i <= table@.len(),
            s@ == seq@,
            first_exact(table@, seq@, i as int) == first_exact(table@, seq@, 0),
        decreases table@.len() - i,
    {
        let k = chars_of(table[i].keys);
        if chars_eq(&k, &s) {
            return Resolved::Exact(i);
        }
        i += 1;
    }
    assert(first_exact(table@, seq@, 0) == None::<int>);
    let mut j: usize = 0;
    while j < table.len()
        invariant
            j <= table@.len(),
            s@ == seq@,
            first_exact(table@, seq@, 0) == None::<int>,
            forall|a: int| 0 <= a < j ==> !seq@.is_prefix_of(#[trigger] table@[a].keys@),
        decreases table@.len() - j,
    {
        let k = chars_of(table[j].keys);
        if starts_at(&k, 0, &s) {
            assert(seq@.is_prefix_of(table@[j as int].keys@));
            return Resolved::Prefix;
        }
        j += 1;
    }
    Resolved::NoMatch
}

/// What `dispatch` reports for a sequence: `Ran` when an action matched
/// exactly (the caller then runs that action).
pub fn lookup_of(r: Resolved) -> (l: Lookup)
    ensures
        l == match r {
            Resolved::Exact(_) => Lookup::Ran,
            Resolved::Prefix => Lookup::Prefix,
            Resolved::NoMatch => Lookup::NoMatch,
        },
{
    match r {
        Resolved::Exact(_) => Lookup::Ran,
        Resolved::Prefix => Lookup::Prefix,
        Resolved::NoMatch => Lookup::NoMatch,
    }
}

/// The first index in `t[from..]` whose id is `id`.
pub open spec fn first_id(t: Seq<Action>, id: Seq<char>, from: int) -> Option<int>
    decreases t.len() - from,
{
    if from < 0 || from >= t.len() {
        None
    } else if t[from].id@ == id {
        Some(from)
    } else {
        first_id(t, id, from + 1)
    }
}

/// The action with the given id.
pub fn find(table: &[Action], id: &str) -> (r: Option<Action>)
    ensures
        match first_id(table@, id@, 0) {
            Some(i) => r == Some(table@[i]),
            None => r is None,
        },
{
    let s = chars_of(id);
    let mut i: usize = 0;
    while i < table.len()
        invariant
            i <= table@.len(),
            s@ == id@,
            first_id(table@, id@, i as int) == first_id(table@, id@, 0),
        decreases table@.len() - i,
    {
        let k = chars_of(table[i].id);
        if chars_eq(&k, &s) {
            return Some(table[i]);
        }
        i += 1;
    }
    None
}

/// The actions whose keys continue `prefix` (and are not just `prefix`).
pub open spec fn continuing(t: Seq<Action>, prefix: Seq<char>) -> Seq<Action> {
    t.filter(|a: Action| prefix.is_prefix_of(a.keys@) && a.keys@ != prefix)
}

/// The sort entries of a list of actions: keyed by their keys, carrying
/// their position.
pub open spec fn keyed(f: Seq<Action>) -> Seq<(usize, Seq<char>, usize)> {
    Seq::new(f.len(), |j: int| (0usize, f[j].keys@, j as usize))
}

/// The actions continuing `prefix`, sorted stably by their keys.
pub open spec fn matching_spec(t: Seq<Action>, prefix: Seq<char>) -> Seq<Action> {
    let f = continuing(t, prefix);
    sort_entries_spec(keyed(f)).map_values(|e: (usize, Seq<char>, usize)| f[e.2 as int])
}

/// The actions whose default keys continue `prefix`, sorted by their keys
/// (for a stable which-key display).
pub fn matching(table: &[Action], prefix: &str) -> (r: Vec<Action>)
    ensures
        r@ == matching_spec(table@, prefix@),
{
    let p = chars_of(prefix);
    let ghost keep = |a: Action| prefix@.is_prefix_of(a.keys@) && a.keys@ != prefix@;
    let mut kept: Vec<Action> = Vec::new();
    let mut i: usize = 0;
    while i < table.len()
        invariant
            i <= table@.len(),
            p@ == prefix@,
            keep == (|a: Action| prefix@.is_prefix_of(a.keys@) && a.keys@ != prefix@),
            kept@ == table@.subrange(0, i as int).filter(keep),
        decreases table@.len() - i,
    {
        let a = table[i];
        let k = chars_of(a.keys);
        let starts = starts_at(&k, 0, &p);
        let same = chars_eq(&k, &p);
        proof {
            assert(starts == prefix@.is_prefix_of(a.keys@)) by {
                if prefix@.is_prefix_of(a.keys@) {
                    assert(a.keys@.subrange(0, prefix@.len() as int) =~= prefix@);
                }
            }
            assert(table@.subrange(0, i + 1) =~= table@.subrange(0, i as int).push(a));
            table@.subrange(0, i as int).lemma_filter_push(a, keep);
        }
        if starts && !same {
            kept.push(a);
        }
        i = i + 1;
    }
    proof {
        assert(table@.subrange(0, table@.len() as int) =~= table@);
    }
    let ghost f = kept@;
    let mut es: Vec<(usize, Vec<char>, usize)> = Vec::new();
    let mut j: usize = 0;
    while j < kept.len()
        invariant
            j <= kept@.len(),
            f == kept@,
            entry_views(es@) == keyed(f).subrange(0, j as int),
        decreases kept@.len() - j,
    {
        let k = chars_of(kept[j].keys);
        let ghost before = es@;
        es.push((0, k, j));
        proof {
            assert(entry_views(es@) =~= entry_views(before).push((0usize, f[j as int].keys@, j)));
            assert(keyed(f).subrange(0, j + 1) =~= keyed(f).subrange(0, j as int).push((0usize, f[j as int].keys@, j)));
        }
        j = j + 1;
    }
    proof {
        assert(keyed(f).subrange(0, f.len() as int) =~= keyed(f));
    }
    let sorted = sort_entries(es);
    let ghost ks = sort_entries_spec(keyed(f));
    proof {
        lemma_sort_elements(keyed(f));
    }
    let mut out: Vec<Action> = Vec::new();
    let mut m: usize = 0;
    while m < sorted.len()
        invariant
            m <= sorted@.len(),
            f == kept@,
            ks == sort_entries_spec(keyed(f)),
            entry_views(sorted@) == ks,
            ks.len() == f.len(),
            forall|q: int| 0 <= q < f.len() ==> keyed(f).contains(#[trigger] ks[q]),
            out@ == ks.subrange(0, m as int).map_values(|e: (usize, Seq<char>, usize)| f[e.2 as int]),
        decreases sorted@.len() - m,
    {
        let idx = sorted[m].2;
        proof {
            assert(ks[m as int] == entry_view(sorted@[m as int]));
            assert(keyed(f).contains(ks[m as int]));
            let w = choose|w: int| 0 <= w < keyed(f).len() && keyed(f)[w] == ks[m as int];
            assert(idx as int == w);
        }
        out.push(kept[idx]);
        proof {
            assert(ks.subrange(0, m + 1).map_values(|e: (usize, Seq<char>, usize)| f[e.2 as int])
                =~= ks.subrange(0, m as int).map_values(|e: (usize, Seq<char>, usize)| f[e.2 as int]).push(f[idx as int]));
        }
        m = m + 1;
    }
    proof {
        assert(ks.subrange(0, ks.len() as int) =~= ks);
    }
    out
}

} // verus!
