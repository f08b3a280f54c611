//! Language-server plumbing that is pure logic: the server commands tried
//! for each language, language ids by file extension, the LSP data the
//! editor keeps (each server's diagnostics per file and the progress of
//! its work), and UTF-16 column conversion.
use vstd::prelude::*;
use crate::text::{chars_of, chars_eq, extend_chars, string_from};

verus! {

/// A diagnostic's severity.
#[derive(Debug, Clone, Copy, PartialEq, Eq, Structural)]
pub enum Severity {
    Error,
    Warning,
    Info,
    Hint,
}

/// One diagnostic, with a 0-indexed line/column range.
#[derive(Debug, Clone)]
pub struct Diagnostic {
    pub line: usize,
    pub col: usize,
    pub end_line: usize,
    pub end_col: usize,
    pub severity: Severity,
    pub message: String,
}

/// One completion result from a server.
#[derive(Debug, Clone)]
pub struct CompletionResultItem {
    pub label: String,
    pub insert_text: String,
    pub detail: Option<String>,
}

/// What a language server reported.
pub enum LspEvent {
    Diagnostics { uri: String, diags: Vec<Diagnostic> },
    Hover { request_id: u64, text: Option<String> },
    Definition { request_id: u64, uri: String, line: usize, col: usize },
    Completion { request_id: u64, items: Vec<CompletionResultItem> },
}

/// The language id of a (lower-case) file extension.
pub open spec fn lang_id_spec(ext: Seq<char>) -> Option<Seq<char>> {
    if ext == "rs"@ {
        Some("rust"@)
    } else if ext == "py"@ || ext == "pyi"@ {
        Some("python"@)
    } else if ext == "js"@ || ext == "jsx"@ || ext == "mjs"@ || ext == "cjs"@ {
        Some("javascript"@)
    } else if ext == "ts"@ || ext == "tsx"@ {
        Some("typescript"@)
    } else if ext == "go"@ {
        Some("go"@)
    } else if ext == "c"@ || ext == "h"@ {
        Some("c"@)
    } else if ext == "cpp"@ || ext == "cc"@ || ext == "cxx"@ || ext == "hpp"@ || ext == "hh"@ {
        Some("cpp"@)
    } else if ext == "lua"@ {
        Some("lua"@)
    } else if ext == "sh"@ || ext == "bash"@ {
        Some("bash"@)
    } else if ext == "json"@ || ext == "jsonc"@ {
        Some("json"@)
    } else if ext == "toml"@ {
        Some("toml"@)
    } else if ext == "yaml"@ || ext == "yml"@ {
        Some("yaml"@)
    } else {
        None
    }
}

fn is(s: &Vec<char>, w: &str) -> (r: bool)
    ensures
        r == (s@ == w@),
{
    let t = chars_of(w);
    chars_eq(s, &t)
}

/// The language id of a (lower-case) file extension.
pub fn lang_id_for_extension(ext: &str) -> (r: Option<&'static str>)
    ensures
        match lang_id_spec(ext@) {
            Some(id) => r matches Some(x) && x@ == id,
            None => r is None,
        },
{
    let e = chars_of(ext);
    if is(&e, "rs") {
        Some("rust")
    } else if is(&e, "py") || is(&e, "pyi") {
        Some("python")
    } else if is(&e, "js") || is(&e, "jsx") || is(&e, "mjs") || is(&e, "cjs") {
        Some("javascript")
    } else if is(&e, "ts") || is(&e, "tsx") {
        Some("typescript")
    } else if is(&e, "go") {
        Some("go")
    } else if is(&e, "c") || is(&e, "h") {
        Some("c")
    } else if is(&e, "cpp") || is(&e, "cc") || is(&e, "cxx") || is(&e, "hpp") || is(&e, "hh") {
        Some("cpp")
    } else if is(&e, "lua") {
        Some("lua")
    } else if is(&e, "sh") || is(&e, "bash") {
        Some("bash")
    } else if is(&e, "json") || is(&e, "jsonc") {
        Some("json")
    } else if is(&e, "toml") {
        Some("toml")
    } else if is(&e, "yaml") || is(&e, "yml") {
        Some("yaml")
    } else {
        None
    }
}

/// The server commands tried, in order, for a language id.
pub open spec fn candidates_spec(id: Seq<char>) -> Seq<Seq<Seq<char>>> {
    if id == "rust"@ {
        seq![seq!["rust-analyzer"@]]
    } else if id == "python"@ {
        seq![
            seq!["pylsp"@],
            seq!["pyright-langserver"@, "--stdio"@],
            seq!["basedpyright-langserver"@, "--stdio"@],
        ]
    } else if id == "javascript"@ || id == "typescript"@ || id == "javascriptreact"@ || id
        == "typescriptreact"@ {
        seq![seq!["typescript-language-server"@, "--stdio"@]]
    } else if id == "go"@ {
        seq![seq!["gopls"@]]
    } else if id == "c"@ || id == "cpp"@ {
        seq![seq!["clangd"@]]
    } else if id == "lua"@ {
        seq![seq!["lua-language-server"@]]
    } else if id == "bash"@ {
        seq![seq!["bash-language-server"@, "start"@]]
    } else if id == "json"@ {
        seq![seq!["vscode-json-language-server"@, "--stdio"@]]
    } else if id == "toml"@ {
        seq![seq!["taplo"@, "lsp"@, "stdio"@]]
    } else if id == "yaml"@ {
        seq![seq!["yaml-language-server"@, "--stdio"@]]
    } else {
        seq![]
    }
}

/// Every language that a file extension maps to has at least one server
/// command to try, and every command has a program name.
pub proof fn law_known_languages_have_servers(ext: Seq<char>)
    requires
        lang_id_spec(ext) is Some,
    ensures
        candidates_spec(lang_id_spec(ext)->0).len() > 0,
        forall|k: int| 0 <= k < candidates_spec(lang_id_spec(ext)->0).len() ==> (#[trigger] candidates_spec(lang_id_spec(ext)->0)[k]).len() > 0,
{
}

/// The views of a command table.
pub open spec fn table_view(t: Seq<Vec<&'static str>>) -> Seq<Seq<Seq<char>>> {
    t.map_values(|c: Vec<&'static str>| c@.map_values(|w: &'static str| w@))
}

fn cmd1(a: &'static str) -> (r: Vec<&'static str>)
    ensures
        r@.map_values(|w: &'static str| w@) == seq![a@],
{
    let r = vec![a];
    assert(r@.map_values(|w: &'static str| w@) =~= seq![a@]);
    r
}

fn cmd2(a: &'static str, b: &'static str) -> (r: Vec<&'static str>)
    ensures
        r@.map_values(|w: &'static str| w@) == seq![a@, b@],
{
    let r = vec![a, b];
    assert(r@.map_values(|w: &'static str| w@) =~= seq![a@, b@]);
    r
}

fn cmd3(a: &'static str, b: &'static str, c: &'static str) -> (r: Vec<&'static str>)
    ensures
        r@.map_values(|w: &'static str| w@) == seq![a@, b@, c@],
{
    let r = vec![a, b, c];
    assert(r@.map_values(|w: &'static str| w@) =~= seq![a@, b@, c@]);
    r
}

/// Best-effort candidate commands per language id, tried in order until
/// one spawns successfully.
pub fn candidates_for(lang_id: &str) -> (r: Vec<Vec<&'static str>>)
    ensures
        table_view(r@) == candidates_spec(lang_id@),
{
    let e = chars_of(lang_id);
    let r = if is(&e, "rust") {
        vec![cmd1("rust-analyzer")]
    } else if is(&e, "python") {
        vec![
            cmd1("pylsp"),
            cmd2("pyright-langserver", "--stdio"),
            cmd2("basedpyright-langserver", "--stdio"),
        ]
    } else if is(&e, "javascript") || is(&e, "typescript") || is(&e, "javascriptreact") || is(
        &e,
        "typescriptreact",
    ) {
        vec![cmd2("typescript-language-server", "--stdio")]
    } else if is(&e, "go") {
        vec![cmd1("gopls")]
    } else if is(&e, "c") || is(&e, "cpp") {
        vec![cmd1("clangd")]
    } else if is(&e, "lua") {
        vec![cmd1("lua-language-server")]
    } else if is(&e, "bash") {
        vec![cmd2("bash-language-server", "start")]
    } else if is(&e, "json") {
        vec![cmd2("vscode-json-language-server", "--stdio")]
    } else if is(&e, "toml") {
        vec![cmd3("taplo", "lsp", "stdio")]
    } else if is(&e, "yaml") {
        vec![cmd2("yaml-language-server", "--stdio")]
    } else {
        Vec::new()
    };
    assert(table_view(r@) =~= candidates_spec(lang_id@));
    r
}


// ---------------------------------------------------------------- diagnostics

/// A diagnostic by its plain values.
pub open spec fn diag_view(d: Diagnostic) -> (usize, usize, usize, usize, Severity, Seq<char>) {
    (d.line, d.col, d.end_line, d.end_col, d.severity, d.message@)
}

pub open spec fn diags_view(v: Seq<Diagnostic>) -> Seq<(usize, usize, usize, usize, Severity, Seq<char>)> {
    v.map_values(|d: Diagnostic| diag_view(d))
}

/// Each server's latest diagnostics for each file: `(server, file,
/// diagnostics)`, one entry per server and file.
pub struct ServerDiagnostics {
    pub entries: Vec<(String, String, Vec<Diagnostic>)>,
}

pub open spec fn entry_view(e: (String, String, Vec<Diagnostic>)) -> (Seq<char>, Seq<char>, Seq<(usize, usize, usize, usize, Severity, Seq<char>)>) {
    (e.0@, e.1@, diags_view(e.2@))
}

/// The first entry from `i` on for `server` and `path`, or the length.
pub open spec fn find_entry(es: Seq<(Seq<char>, Seq<char>, Seq<(usize, usize, usize, usize, Severity, Seq<char>)>)>, server: Seq<char>, path: Seq<char>, i: int) -> int
    decreases es.len() - i,
{
    if i < 0 || i >= es.len() {
        es.len() as int
    } else if es[i].0 == server && es[i].1 == path {
        i
    } else {
        find_entry(es, server, path, i + 1)
    }
}

/// The diagnostics of every server for `path`, in the order of the
/// entries.
pub open spec fn merged_for(es: Seq<(Seq<char>, Seq<char>, Seq<(usize, usize, usize, usize, Severity, Seq<char>)>)>, path: Seq<char>) -> Seq<(usize, usize, usize, usize, Severity, Seq<char>)>
    decreases es.len(),
{
    if es.len() == 0 {
        seq![]
    } else {
        merged_for(es.drop_last(), path) + if es.last().1 == path { es.last().2 } else { seq![] }
    }
}

fn copy_diag(d: &Diagnostic) -> (r: Diagnostic)
    ensures
        diag_view(r) == diag_view(*d),
{
    Diagnostic {
        line: d.line,
        col: d.col,
        end_line: d.end_line,
        end_col: d.end_col,
        severity: d.severity,
        message: string_from(&chars_of(d.message.as_str())),
    }
}

fn copy_diags(v: &Vec<Diagnostic>, out: &mut Vec<Diagnostic>)
    ensures
        diags_view(final(out)@) == diags_view(old(out)@) + diags_view(v@),
{
    let ghost start = diags_view(out@);
    let mut i: usize = 0;
    assert(diags_view(v@.take(0)) =~= Seq::<(usize, usize, usize, usize, Severity, Seq<char>)>::empty());
    while i < v.len()
        invariant
            i <= v@.len(),
            diags_view(out@) == start + diags_view(v@.take(i as int)),
        decreases v@.len() - i,
    {
        let ghost before = out@;
        out.push(copy_diag(&v[i]));
        proof {
            assert(diags_view(out@) =~= diags_view(before).push(diag_view(v@[i as int])));
            assert(diags_view(v@.take(i + 1)) =~= diags_view(v@.take(i as int)).push(diag_view(v@[i as int])));
        }
        i += 1;
    }
    assert(v@.take(v@.len() as int) =~= v@);
}

impl ServerDiagnostics {
    pub open spec fn view(&self) -> Seq<(Seq<char>, Seq<char>, Seq<(usize, usize, usize, usize, Severity, Seq<char>)>)> {
        self.entries@.map_values(|e: (String, String, Vec<Diagnostic>)| entry_view(e))
    }

    /// Records `server`'s diagnostics for `path`, replacing what it sent
    /// for that file before.
    pub fn record(&mut self, server: &str, path: &str, diags: Vec<Diagnostic>)
        ensures
            ({
                let es = old(self).view();
                let i = find_entry(es, server@, path@, 0);
                let e = (server@, path@, diags_view(diags@));
                final(self).view() == if i < es.len() { es.update(i, e) } else { es.push(e) }
            }),
    {
        let ghost es = self.view();
        let sc = chars_of(server);
        let pc = chars_of(path);
        let mut k: usize = 0;
        while k < self.entries.len()
            && !(chars_eq(&chars_of(self.entries[k].0.as_str()), &sc) && chars_eq(&chars_of(self.entries[k].1.as_str()), &pc))
            invariant
                k <= self.entries@.len(),
                es == self.view(),
                sc@ == server@,
                pc@ == path@,
                find_entry(es, server@, path@, k as int) == find_entry(es, server@, path@, 0),
            decreases self.entries@.len() - k,
        {
            assert(es[k as int] == entry_view(self.entries@[k as int]));
            k += 1;
        }
        proof {
            if k < self.entries.len() {
                assert(es[k as int] == entry_view(self.entries@[k as int]));
            }
        }
        let e = (string_from(&sc), string_from(&pc), diags);
        if k < self.entries.len() {
            self.entries.set(k, e);
            proof {
                assert(self.view() =~= es.update(k as int, entry_view(self.entries@[k as int])));
            }
        } else {
            self.entries.push(e);
            proof {
                assert(self.view() =~= es.push(entry_view(self.entries@[k as int])));
            }
        }
    }

    /// The diagnostics shown for `path`: those of every server, together
    /// (see [`merged_for`]).
    pub fn visible(&self, path: &str) -> (r: Vec<Diagnostic>)
        ensures
            diags_view(r@) == merged_for(self.view(), path@),
    {
        let ghost es = self.view();
        let pc = chars_of(path);
        let mut out: Vec<Diagnostic> = Vec::new();
        let mut i: usize = 0;
        assert(diags_view(out@) =~= merged_for(es.take(0), path@));
        while i < self.entries.len()
            invariant
                i <= self.entries@.len(),
                es == self.view(),
                pc@ == path@,
                diags_view(out@) == merged_for(es.take(i as int), path@),
            decreases self.entries@.len() - i,
        {
            proof {
                assert(es.take(i + 1).drop_last() =~= es.take(i as int));
                assert(es.take(i + 1).last() == es[i as int]);
                assert(es[i as int] == entry_view(self.entries@[i as int]));
            }
            let ghost before = diags_view(out@);
            if chars_eq(&chars_of(self.entries[i].1.as_str()), &pc) {
                copy_diags(&self.entries[i].2, &mut out);
            } else {
                assert(before + Seq::<(usize, usize, usize, usize, Severity, Seq<char>)>::empty() =~= before);
            }
            i += 1;
        }
        assert(es.take(es.len() as int) =~= es);
        out
    }
}

/// Whether new diagnostics show at once: always with
/// `update_in_insert`, else only outside Insert mode (they wait for it to
/// end, so the view does not flicker while typing).
pub open spec fn show_diagnostics_now(update_in_insert: bool, in_insert: bool) -> bool {
    update_in_insert || !in_insert
}

/// Whether new diagnostics show at once (see [`show_diagnostics_now`]).
pub fn diagnostics_now(update_in_insert: bool, in_insert: bool) -> (r: bool)
    ensures
        r == show_diagnostics_now(update_in_insert, in_insert),
{
    update_in_insert || !in_insert
}

// ---------------------------------------------------------------- progress

/// The progress a server reports for one piece of work.
pub struct Progress {
    pub title: Option<String>,
    pub message: Option<String>,
    pub percentage: Option<u32>,
}

pub open spec fn opt_text(o: Option<String>) -> Option<Seq<char>> {
    match o {
        Some(x) => Some(x@),
        None => None,
    }
}

pub open spec fn progress_view(p: Progress) -> (Option<Seq<char>>, Option<Seq<char>>, Option<u32>) {
    (opt_text(p.title), opt_text(p.message), p.percentage)
}

/// The work in progress: `(server, token, progress)`, one entry per server
/// and token, in the order the work began.
pub struct ProgressTable {
    pub entries: Vec<(String, String, Progress)>,
}

pub open spec fn pentry_view(e: (String, String, Progress)) -> (Seq<char>, Seq<char>, (Option<Seq<char>>, Option<Seq<char>>, Option<u32>)) {
    (e.0@, e.1@, progress_view(e.2))
}

pub open spec fn find_work(es: Seq<(Seq<char>, Seq<char>, (Option<Seq<char>>, Option<Seq<char>>, Option<u32>))>, server: Seq<char>, token: Seq<char>, i: int) -> int
    decreases es.len() - i,
{
    if i < 0 || i >= es.len() {
        es.len() as int
    } else if es[i].0 == server && es[i].1 == token {
        i
    } else {
        find_work(es, server, token, i + 1)
    }
}

pub open spec fn first_some<T>(a: Option<T>, b: Option<T>) -> Option<T> {
    match a {
        Some(x) => Some(x),
        None => b,
    }
}

/// The table after a progress notification of `kind` for `server`'s
/// `token`: `begin` records the work afresh; `report` updates the fields
/// it carries (starting an entry when there is none); `end` removes it;
/// any other kind changes nothing.
pub open spec fn progress_after(
    es: Seq<(Seq<char>, Seq<char>, (Option<Seq<char>>, Option<Seq<char>>, Option<u32>))>,
    server: Seq<char>,
    token: Seq<char>,
    kind: Seq<char>,
    p: (Option<Seq<char>>, Option<Seq<char>>, Option<u32>),
) -> Seq<(Seq<char>, Seq<char>, (Option<Seq<char>>, Option<Seq<char>>, Option<u32>))> {
    let i = find_work(es, server, token, 0);
    if kind == "begin"@ {
        if i < es.len() { es.update(i, (server, token, p)) } else { es.push((server, token, p)) }
    } else if kind == "report"@ {
        let old = if i < es.len() { es[i].2 } else { (None, None, None) };
        let q = (first_some(p.0, old.0), first_some(p.1, old.1), first_some(p.2, old.2));
        if i < es.len() { es.update(i, (server, token, q)) } else { es.push((server, token, q)) }
    } else if kind == "end"@ {
        if i < es.len() { es.remove(i) } else { es }
    } else {
        es
    }
}

fn copy_opt(o: &Option<String>) -> (r: Option<String>)
    ensures
        opt_text(r) == opt_text(*o),
{
    match o {
        Some(x) => Some(string_from(&chars_of(x.as_str()))),
        None => None,
    }
}

impl ProgressTable {
    pub open spec fn view(&self) -> Seq<(Seq<char>, Seq<char>, (Option<Seq<char>>, Option<Seq<char>>, Option<u32>))> {
        self.entries@.map_values(|e: (String, String, Progress)| pentry_view(e))
    }

    /// Applies a `$/progress` notification (see [`progress_after`]).
    pub fn update(&mut self, server: &str, token: &str, kind: &str, p: Progress)
        ensures
            final(self).view() == progress_after(old(self).view(), server@, token@, kind@, progress_view(p)),
    {
        let ghost es = self.view();
        let sc = chars_of(server);
        let tc = chars_of(token);
        let kc = chars_of(kind);
        let mut k: usize = 0;
        while k < self.entries.len()
            && !(chars_eq(&chars_of(self.entries[k].0.as_str()), &sc) && chars_eq(&chars_of(self.entries[k].1.as_str()), &tc))
            invariant
                k <= self.entries@.len(),
                es == self.view(),
                sc@ == server@,
                tc@ == token@,
                find_work(es, server@, token@, k as int) == find_work(es, server@, token@, 0),
            decreases self.entries@.len() - k,
        {
            assert(es[k as int] == pentry_view(self.entries@[k as int]));
            k += 1;
        }
        proof {
            if k < self.entries.len() {
                assert(es[k as int] == pentry_view(self.entries@[k as int]));
            }
        }
        let found = k < self.entries.len();
        if chars_eq(&kc, &chars_of("begin")) {
            let e = (string_from(&sc), string_from(&tc), p);
            if found {
                self.entries.set(k, e);
                proof {
                    assert(self.view() =~= es.update(k as int, pentry_view(self.entries@[k as int])));
                }
            } else {
                self.entries.push(e);
                proof {
                    assert(self.view() =~= es.push(pentry_view(self.entries@[k as int])));
                }
            }
        } else if chars_eq(&kc, &chars_of("report")) {
            let (t0, m0, c0) = if found {
                let old = &self.entries[k].2;
                (copy_opt(&old.title), copy_opt(&old.message), old.percentage)
            } else {
                (None, None, None)
            };
            let q = Progress {
                title: match p.title { Some(t) => Some(t), None => t0 },
                message: match p.message { Some(m) => Some(m), None => m0 },
                percentage: match p.percentage { Some(c) => Some(c), None => c0 },
            };
            let e = (string_from(&sc), string_from(&tc), q);
            if found {
                self.entries.set(k, e);
                proof {
                    assert(self.view() =~= es.update(k as int, pentry_view(self.entries@[k as int])));
                }
            } else {
                self.entries.push(e);
                proof {
                    assert(self.view() =~= es.push(pentry_view(self.entries@[k as int])));
                }
            }
        } else if chars_eq(&kc, &chars_of("end")) {
            if found {
                self.entries.remove(k);
                proof {
                    assert(self.view() =~= es.remove(k as int));
                }
            }
        }
    }
}

/// How one piece of work reads: its title (`Working…` without one), then
/// its percentage and its message when it has them.
pub open spec fn work_text(p: (Option<Seq<char>>, Option<Seq<char>>, Option<u32>)) -> Seq<char> {
    let t = match p.0 { Some(x) => x, None => "Working…"@ };
    let t2 = match p.2 { Some(c) => t + " "@ + crate::markdown::decimal(c as nat) + "%"@, None => t };
    match p.1 { Some(m) => t2 + " — "@ + m, None => t2 }
}

/// The status-line text of the work in progress, joined with ` · `; none
/// when there is none.
pub open spec fn progress_line(es: Seq<(Seq<char>, Seq<char>, (Option<Seq<char>>, Option<Seq<char>>, Option<u32>))>) -> Seq<char>
    decreases es.len(),
{
    if es.len() == 0 {
        seq![]
    } else if es.len() == 1 {
        work_text(es[0].2)
    } else {
        progress_line(es.drop_last()) + " · "@ + work_text(es.last().2)
    }
}

fn work_exec(p: &Progress) -> (r: Vec<char>)
    ensures
        r@ == work_text(progress_view(*p)),
{
    let mut t: Vec<char> = match &p.title {
        Some(x) => chars_of(x.as_str()),
        None => chars_of("Working…"),
    };
    if let Some(c) = p.percentage {
        extend_chars(&mut t, &chars_of(" "));
        crate::markdown::push_decimal(&mut t, c as u128);
        extend_chars(&mut t, &chars_of("%"));
    }
    if let Some(m) = &p.message {
        extend_chars(&mut t, &chars_of(" — "));
        extend_chars(&mut t, &chars_of(m.as_str()));
    }
    t
}

impl ProgressTable {
    /// The status-line text of the work in progress (see
    /// [`progress_line`]); none when nothing is in progress.
    pub fn status_text(&self) -> (r: Option<String>)
        ensures
            match r {
                Some(t) => self.view().len() > 0 && t@ == progress_line(self.view()),
                None => self.view().len() == 0,
            },
    {
        if self.entries.len() == 0 {
            return None;
        }
        let ghost es = self.view();
        let mut out: Vec<char> = Vec::new();
        let mut i: usize = 0;
        while i < self.entries.len()
            invariant
                i <= self.entries@.len(),
                es == self.view(),
                out@ == progress_line(es.take(i as int)),
            decreases self.entries@.len() - i,
        {
            proof {
                assert(es.take(i + 1).drop_last() =~= es.take(i as int));
                assert(es.take(i + 1).last() == es[i as int]);
                assert(es[i as int] == pentry_view(self.entries@[i as int]));
                if i == 0 {
                    assert(es.take(1)[0] == es[0]);
                }
            }
            if i > 0 {
                extend_chars(&mut out, &chars_of(" · "));
            }
            let w = work_exec(&self.entries[i].2);
            extend_chars(&mut out, &w);
            proof {
                if i == 0 {
                    assert(out@ =~= work_text(es[0].2));
                }
            }
            i += 1;
        }
        assert(es.take(es.len() as int) =~= es);
        Some(string_from(&out))
    }
}


/// Whether no two entries are for the same server and token.
pub open spec fn work_keys_once(es: Seq<(Seq<char>, Seq<char>, (Option<Seq<char>>, Option<Seq<char>>, Option<u32>))>) -> bool {
    forall|a: int, b: int| 0 <= a < b < es.len() ==> !(es[a].0 == es[b].0 && es[a].1 == es[b].1)
}

proof fn lemma_find_work(es: Seq<(Seq<char>, Seq<char>, (Option<Seq<char>>, Option<Seq<char>>, Option<u32>))>, server: Seq<char>, token: Seq<char>, i: int)
    requires
        0 <= i <= es.len(),
    ensures
        i <= find_work(es, server, token, i) <= es.len(),
        find_work(es, server, token, i) < es.len() ==> es[find_work(es, server, token, i)].0 == server && es[find_work(es, server, token, i)].1 == token,
        forall|k: int| i <= k < find_work(es, server, token, i) ==> !(es[k].0 == server && es[k].1 == token),
    decreases es.len() - i,
{
    if i < es.len() && !(es[i].0 == server && es[i].1 == token) {
        lemma_find_work(es, server, token, i + 1);
    }
}

/// Progress notifications keep one entry per server and token.
pub proof fn law_progress_keys_once(
    es: Seq<(Seq<char>, Seq<char>, (Option<Seq<char>>, Option<Seq<char>>, Option<u32>))>,
    server: Seq<char>,
    token: Seq<char>,
    kind: Seq<char>,
    p: (Option<Seq<char>>, Option<Seq<char>>, Option<u32>),
)
    requires
        work_keys_once(es),
    ensures
        work_keys_once(progress_after(es, server, token, kind, p)),
{
    lemma_find_work(es, server, token, 0);
    let i = find_work(es, server, token, 0);
    let r = progress_after(es, server, token, kind, p);
    assert forall|a: int, b: int| 0 <= a < b < r.len() implies !(r[a].0 == r[b].0 && r[a].1 == r[b].1) by {
        if kind == "begin"@ || kind == "report"@ {
            if i < es.len() {
                assert(r[a].0 == es[a].0 && r[a].1 == es[a].1);
                assert(r[b].0 == es[b].0 && r[b].1 == es[b].1);
            } else if b == es.len() {
                assert(r[a] == es[a]);
            } else {
                assert(r[a] == es[a] && r[b] == es[b]);
            }
        } else if kind == "end"@ && i < es.len() {
            let a2 = if a < i { a } else { a + 1 };
            let b2 = if b < i { b } else { b + 1 };
            assert(r[a] == es[a2] && r[b] == es[b2]);
        } else {
            assert(r[a] == es[a] && r[b] == es[b]);
        }
    }
}

} // verus!
