//! What the editor does with a language server's reply to each kind of
//! request: the links, lenses, inlay hints, highlights, locations, code
//! actions, text edits, workspace edits and hover text read out of the
//! reply, and the step the editor takes with them. Replies are read
//! through serde_json's accessors; columns stay in the UTF-16 units the
//! server sent (`utf16_to_col` turns them into columns against the line's
//! text), and URIs stay as sent (turning one into a path is file-system
//! work).
use vstd::prelude::*;
use crate::completion::{json_get, json_member, json_str, json_text};
use crate::language::{json_array, json_elements, newline_joined};
use crate::text::{chars_of, extend_chars, string_from};

verus! {

/// What `serde_json::Value::as_u64` gives for a JSON value: a number that
/// is a non-negative integer fitting `u64`, none for anything else.
pub uninterp spec fn json_unsigned(v: serde_json::Value) -> Option<u64>;

/// What `serde_json::Value::as_bool` gives for a JSON value: the boolean
/// it holds, none for anything else.
pub uninterp spec fn json_boolean(v: serde_json::Value) -> Option<bool>;

/// What `serde_json::Value::is_null` gives for a JSON value.
pub uninterp spec fn json_null(v: serde_json::Value) -> bool;

/// `serde_json::Value::as_u64`, by the name `json_unsigned`.
#[verifier::external_body]
pub(crate) fn json_u64(v: &serde_json::Value) -> (r: Option<u64>)
    ensures
        r == json_unsigned(*v),
{
    v.as_u64()
}

/// `serde_json::Value::as_bool`, by the name `json_boolean`.
#[verifier::external_body]
fn json_bool(v: &serde_json::Value) -> (r: Option<bool>)
    ensures
        r == json_boolean(*v),
{
    v.as_bool()
}

/// `serde_json::Value::is_null`, by the name `json_null`.
#[verifier::external_body]
fn json_is_null(v: &serde_json::Value) -> (r: bool)
    ensures
        r == json_null(*v),
{
    v.is_null()
}

/// What `serde_json::Value::as_i64` gives for a JSON value: an integer
/// fitting `i64`, none for anything else.
pub uninterp spec fn json_signed(v: serde_json::Value) -> Option<i64>;

/// What `serde_json::Value::is_object` gives for a JSON value.
pub uninterp spec fn json_is_object(v: serde_json::Value) -> bool;

/// What `serde_json::Value::as_object` gives for a JSON value, as its
/// members in the map's order: none for anything but an object.
pub uninterp spec fn json_entries(v: serde_json::Value) -> Option<Seq<(Seq<char>, serde_json::Value)>>;

/// `serde_json::Value::as_i64`, by the name `json_signed`.
#[verifier::external_body]
fn json_i64(v: &serde_json::Value) -> (r: Option<i64>)
    ensures
        r == json_signed(*v),
{
    v.as_i64()
}

/// `serde_json::Value::is_object`, by the name `json_is_object`.
#[verifier::external_body]
fn json_object(v: &serde_json::Value) -> (r: bool)
    ensures
        r == json_is_object(*v),
{
    v.is_object()
}

/// `serde_json::Value::as_object`, its members listed in the map's
/// order as `(key, value)` with the values cloned, by the name
/// `json_entries`.
#[verifier::external_body]
fn json_members(v: &serde_json::Value) -> (r: Option<Vec<(String, serde_json::Value)>>)
    ensures
        match r {
            Some(x) => json_entries(*v) == Some(x@.map_values(|e: (String, serde_json::Value)| (e.0@, e.1))),
            None => json_entries(*v) is None,
        },
{
    v.as_object().map(|m| m.iter().map(|(k, x)| (k.clone(), x.clone())).collect())
}

/// `Clone` of `serde_json::Value` (derived): an equal value.
#[verifier::external_body]
fn json_clone(v: &serde_json::Value) -> (r: serde_json::Value)
    ensures
        r == *v,
{
    v.clone()
}

// ---------------------------------------------------------------- reading

pub open spec fn opt_val(o: Option<&serde_json::Value>) -> Option<serde_json::Value> {
    match o {
        Some(x) => Some(*x),
        None => None,
    }
}

/// `v[key]`: the member when `v` is an object that has it; none otherwise
/// (where indexing gives `null`, which reads as nothing below).
pub open spec fn at(v: Option<serde_json::Value>, key: Seq<char>) -> Option<serde_json::Value> {
    match v {
        Some(x) => json_member(x, key),
        None => None,
    }
}

/// `v.as_str()` of an optional value.
pub open spec fn text_of(v: Option<serde_json::Value>) -> Option<Seq<char>> {
    match v {
        Some(x) => json_text(x),
        None => None,
    }
}

/// `v.as_u64().unwrap_or(0) as usize` of an optional value.
pub open spec fn num_of(v: Option<serde_json::Value>) -> usize {
    match v {
        Some(x) => match json_unsigned(x) {
            Some(n) => n as usize,
            None => 0,
        },
        None => 0,
    }
}

/// `v == true` of an optional value.
pub open spec fn is_true(v: Option<serde_json::Value>) -> bool {
    match v {
        Some(x) => json_boolean(x) == Some(true),
        None => false,
    }
}

/// The elements of a reply that is an array; none of anything else.
pub open spec fn elements_of(v: serde_json::Value) -> Seq<serde_json::Value> {
    match json_elements(v) {
        Some(es) => es,
        None => seq![],
    }
}

/// `f` applied to each element, the nones dropped, in order.
pub open spec fn collect<T>(es: Seq<serde_json::Value>, f: spec_fn(serde_json::Value) -> Option<T>) -> Seq<T>
    decreases es.len(),
{
    if es.len() == 0 {
        seq![]
    } else {
        let r = collect(es.drop_last(), f);
        match f(es.last()) {
            Some(x) => r.push(x),
            None => r,
        }
    }
}

proof fn lemma_collect_step<T>(es: Seq<serde_json::Value>, f: spec_fn(serde_json::Value) -> Option<T>, i: int)
    requires
        0 <= i < es.len(),
    ensures
        collect(es.take(i + 1), f) == match f(es[i]) {
            Some(x) => collect(es.take(i), f).push(x),
            None => collect(es.take(i), f),
        },
{
    assert(es.take(i + 1).drop_last() =~= es.take(i));
    assert(es.take(i + 1).last() == es[i]);
}

fn at_exec<'a>(v: Option<&'a serde_json::Value>, key: &str) -> (r: Option<&'a serde_json::Value>)
    ensures
        opt_val(r) == at(opt_val(v), key@),
{
    match v {
        Some(x) => json_get(x, key),
        None => None,
    }
}

fn text_exec(v: Option<&serde_json::Value>) -> (r: Option<String>)
    ensures
        match r {
            Some(t) => text_of(opt_val(v)) == Some(t@),
            None => text_of(opt_val(v)) is None,
        },
{
    match v {
        Some(x) => json_str(x),
        None => None,
    }
}

fn num_exec(v: Option<&serde_json::Value>) -> (r: usize)
    ensures
        r == num_of(opt_val(v)),
{
    match v {
        Some(x) => match json_u64(x) {
            Some(n) => n as usize,
            None => 0,
        },
        None => 0,
    }
}

fn true_exec(v: Option<&serde_json::Value>) -> (r: bool)
    ensures
        r == is_true(opt_val(v)),
{
    match v {
        Some(x) => json_bool(x) == Some(true),
        None => false,
    }
}

/// The number at `v[k1][k2][k3]`, 0 when missing.
pub open spec fn num_at3(v: serde_json::Value, k1: Seq<char>, k2: Seq<char>, k3: Seq<char>) -> usize {
    num_of(at(at(at(Some(v), k1), k2), k3))
}

fn num_at3_exec(v: &serde_json::Value, k1: &str, k2: &str, k3: &str) -> (r: usize)
    ensures
        r == num_at3(*v, k1@, k2@, k3@),
{
    num_exec(at_exec(at_exec(at_exec(Some(v), k1), k2), k3))
}

fn lit(s: &str) -> (r: String)
    ensures
        r@ == s@,
{
    string_from(&chars_of(s))
}

// ---------------------------------------------------------------- links

/// A document link: where it is (line and UTF-16 units), what it shows
/// (its tooltip, else its target) and where it leads.
pub struct LinkEntry {
    pub line: usize,
    pub units: usize,
    pub label: String,
    pub target: String,
}

pub open spec fn link_view(e: LinkEntry) -> (usize, usize, Seq<char>, Seq<char>) {
    (e.line, e.units, e.label@, e.target@)
}

/// A link element of a reply; none when it has no text `target` (one left
/// for a later resolve request).
pub open spec fn link_of(e: serde_json::Value) -> Option<(usize, usize, Seq<char>, Seq<char>)> {
    match text_of(at(Some(e), "target"@)) {
        None => None,
        Some(t) => Some((
            num_at3(e, "range"@, "start"@, "line"@),
            num_at3(e, "range"@, "start"@, "character"@),
            match text_of(at(Some(e), "tooltip"@)) {
                Some(l) => l,
                None => t,
            },
            t,
        )),
    }
}

/// The links of a `textDocument/documentLink` reply, in order.
pub open spec fn links_spec(v: serde_json::Value) -> Seq<(usize, usize, Seq<char>, Seq<char>)> {
    collect(elements_of(v), |e: serde_json::Value| link_of(e))
}

fn link_exec(e: &serde_json::Value) -> (r: Option<LinkEntry>)
    ensures
        match r {
            Some(x) => link_of(*e) == Some(link_view(x)),
            None => link_of(*e) is None,
        },
{
    let target = match text_exec(at_exec(Some(e), "target")) {
        Some(t) => t,
        None => return None,
    };
    let line = num_at3_exec(e, "range", "start", "line");
    let units = num_at3_exec(e, "range", "start", "character");
    let label = match text_exec(at_exec(Some(e), "tooltip")) {
        Some(l) => l,
        None => string_from(&chars_of(target.as_str())),
    };
    Some(LinkEntry { line, units, label, target })
}

/// The links of a `textDocument/documentLink` reply (see [`links_spec`]).
pub fn document_links(v: &serde_json::Value) -> (r: Vec<LinkEntry>)
    ensures
        r@.map_values(|x: LinkEntry| link_view(x)) == links_spec(*v),
{
    let ghost f = |e: serde_json::Value| link_of(e);
    let mut out: Vec<LinkEntry> = Vec::new();
    let es = match json_array(v) {
        Some(a) => a,
        None => {
            assert(out@.map_values(|x: LinkEntry| link_view(x)) =~= links_spec(*v));
            return out;
        },
    };
    let ghost ev = es@;
    let mut i: usize = 0;
    assert(out@.map_values(|x: LinkEntry| link_view(x)) =~= collect(ev.take(0), f));
    while i < es.len()
        invariant
            i <= ev.len(),
            ev == es@,
            ev == elements_of(*v),
            f == (|e: serde_json::Value| link_of(e)),
            out@.map_values(|x: LinkEntry| link_view(x)) == collect(ev.take(i as int), f),
        decreases ev.len() - i,
    {
        proof {
            lemma_collect_step(ev, f, i as int);
        }
        let ghost before = out@;
        match link_exec(&es[i]) {
            Some(x) => {
                out.push(x);
                proof {
                    assert(out@.map_values(|x: LinkEntry| link_view(x))
                        =~= before.map_values(|x: LinkEntry| link_view(x)).push(link_view(out@[before.len() as int])));
                }
            },
            None => {},
        }
        i += 1;
    }
    assert(ev.take(ev.len() as int) =~= ev);
    out
}


// ---------------------------------------------------------------- lenses

/// A code lens: its line, its title (`Run` when the command has none) and
/// the command it runs.
pub struct LensEntry {
    pub line: usize,
    pub title: String,
    pub command: serde_json::Value,
}

pub open spec fn lens_view(e: LensEntry) -> (usize, Seq<char>, serde_json::Value) {
    (e.line, e.title@, e.command)
}

/// A lens element of a reply; none when it has no `command` (one left for
/// a later resolve request).
pub open spec fn lens_of(e: serde_json::Value) -> Option<(usize, Seq<char>, serde_json::Value)> {
    match at(Some(e), "command"@) {
        None => None,
        Some(c) => Some((
            num_at3(e, "range"@, "start"@, "line"@),
            match text_of(at(Some(c), "title"@)) {
                Some(t) => t,
                None => "Run"@,
            },
            c,
        )),
    }
}

/// The lenses of a `textDocument/codeLens` reply, in order.
pub open spec fn lenses_spec(v: serde_json::Value) -> Seq<(usize, Seq<char>, serde_json::Value)> {
    collect(elements_of(v), |e: serde_json::Value| lens_of(e))
}

fn lens_exec(e: &serde_json::Value) -> (r: Option<LensEntry>)
    ensures
        match r {
            Some(x) => lens_of(*e) == Some(lens_view(x)),
            None => lens_of(*e) is None,
        },
{
    let c = match json_get(e, "command") {
        Some(c) => c,
        None => return None,
    };
    let line = num_at3_exec(e, "range", "start", "line");
    let title = match text_exec(at_exec(Some(c), "title")) {
        Some(t) => t,
        None => lit("Run"),
    };
    Some(LensEntry { line, title, command: json_clone(c) })
}

/// The lenses of a `textDocument/codeLens` reply (see [`lenses_spec`]).
pub fn code_lenses(v: &serde_json::Value) -> (r: Vec<LensEntry>)
    ensures
        r@.map_values(|x: LensEntry| lens_view(x)) == lenses_spec(*v),
{
    let ghost f = |e: serde_json::Value| lens_of(e);
    let mut out: Vec<LensEntry> = Vec::new();
    let es = match json_array(v) {
        Some(a) => a,
        None => {
            assert(out@.map_values(|x: LensEntry| lens_view(x)) =~= lenses_spec(*v));
            return out;
        },
    };
    let ghost ev = es@;
    let mut i: usize = 0;
    assert(out@.map_values(|x: LensEntry| lens_view(x)) =~= collect(ev.take(0), f));
    while i < es.len()
        invariant
            i <= ev.len(),
            ev == es@,
            ev == elements_of(*v),
            f == (|e: serde_json::Value| lens_of(e)),
            out@.map_values(|x: LensEntry| lens_view(x)) == collect(ev.take(i as int), f),
        decreases ev.len() - i,
    {
        proof {
            lemma_collect_step(ev, f, i as int);
        }
        let ghost before = out@;
        match lens_exec(&es[i]) {
            Some(x) => {
                out.push(x);
                proof {
                    assert(out@.map_values(|x: LensEntry| lens_view(x))
                        =~= before.map_values(|x: LensEntry| lens_view(x)).push(lens_view(out@[before.len() as int])));
                }
            },
            None => {},
        }
        i += 1;
    }
    assert(ev.take(ev.len() as int) =~= ev);
    out
}

// ---------------------------------------------------------------- inlay hints

/// An inlay hint: where it goes (line and UTF-16 units) and its label.
pub struct HintEntry {
    pub line: usize,
    pub units: usize,
    pub label: String,
}

pub open spec fn hint_view(e: HintEntry) -> (usize, usize, Seq<char>) {
    (e.line, e.units, e.label@)
}

/// Texts run together.
pub open spec fn flat(ls: Seq<Seq<char>>) -> Seq<char>
    decreases ls.len(),
{
    if ls.len() == 0 { seq![] } else { flat(ls.drop_last()) + ls.last() }
}

/// The label of a hint: a string as it is, or the `value` texts of its
/// label parts run together; empty for anything else.
pub open spec fn label_text(l: Option<serde_json::Value>) -> Seq<char> {
    match l {
        Some(x) => match json_text(x) {
            Some(s) => s,
            None => match json_elements(x) {
                Some(parts) => flat(collect(parts, |p: serde_json::Value| text_of(at(Some(p), "value"@)))),
                None => seq![],
            },
        },
        None => seq![],
    }
}

/// Every hint of a `textDocument/inlayHint` reply, in order.
pub open spec fn hints_spec(v: serde_json::Value) -> Seq<(usize, usize, Seq<char>)> {
    collect(elements_of(v), |h: serde_json::Value| Some(hint_at(h)))
}

/// A hint element of a reply: its position, and its label with a space
/// before it for `paddingLeft` and after it for `paddingRight`.
pub open spec fn hint_at(h: serde_json::Value) -> (usize, usize, Seq<char>) {
    let base = label_text(at(Some(h), "label"@));
    let left = if is_true(at(Some(h), "paddingLeft"@)) { seq![' '] + base } else { base };
    let label = if is_true(at(Some(h), "paddingRight"@)) { left.push(' ') } else { left };
    (
        num_of(at(at(Some(h), "position"@), "line"@)),
        num_of(at(at(Some(h), "position"@), "character"@)),
        label,
    )
}

fn label_exec(l: Option<&serde_json::Value>) -> (r: Vec<char>)
    ensures
        r@ == label_text(opt_val(l)),
{
    let x = match l {
        Some(x) => x,
        None => return Vec::new(),
    };
    if let Some(s) = json_str(x) {
        return chars_of(s.as_str());
    }
    let parts = match json_array(x) {
        Some(p) => p,
        None => return Vec::new(),
    };
    let ghost f = |p: serde_json::Value| text_of(at(Some(p), "value"@));
    let ghost pv = parts@;
    let mut out: Vec<char> = Vec::new();
    let mut i: usize = 0;
    assert(collect(pv.take(0), f) =~= Seq::<Seq<char>>::empty());
    while i < parts.len()
        invariant
            i <= pv.len(),
            pv == parts@,
            f == (|p: serde_json::Value| text_of(at(Some(p), "value"@))),
            out@ == flat(collect(pv.take(i as int), f)),
        decreases pv.len() - i,
    {
        proof {
            lemma_collect_step(pv, f, i as int);
        }
        if let Some(t) = text_exec(at_exec(Some(&parts[i]), "value")) {
            let tc = chars_of(t.as_str());
            let ghost before = collect(pv.take(i as int), f);
            extend_chars(&mut out, &tc);
            proof {
                assert(before.push(t@).drop_last() =~= before);
            }
        }
        i += 1;
    }
    assert(pv.take(pv.len() as int) =~= pv);
    out
}

fn hint_exec(h: &serde_json::Value) -> (r: HintEntry)
    ensures
        hint_view(r) == hint_at(*h),
{
    let base = label_exec(at_exec(Some(h), "label"));
    let mut label: Vec<char> = Vec::new();
    if true_exec(at_exec(Some(h), "paddingLeft")) {
        label.push(' ');
    }
    extend_chars(&mut label, &base);
    if true_exec(at_exec(Some(h), "paddingRight")) {
        label.push(' ');
    }
    let pos = at_exec(Some(h), "position");
    let line = num_exec(at_exec(pos, "line"));
    let units = num_exec(at_exec(pos, "character"));
    proof {
        let b = label_text(at(Some(*h), "label"@));
        if is_true(at(Some(*h), "paddingLeft"@)) {
            assert(seq![' '] + b =~= seq![' '].add(b));
        } else {
            assert(Seq::<char>::empty() + b =~= b);
        }
    }
    HintEntry { line, units, label: string_from(&label) }
}

/// Every hint of a `textDocument/inlayHint` reply (see [`hints_spec`]).
pub fn inlay_hints(v: &serde_json::Value) -> (r: Vec<HintEntry>)
    ensures
        r@.map_values(|x: HintEntry| hint_view(x)) == hints_spec(*v),
{
    let ghost f = |h: serde_json::Value| Some(hint_at(h));
    let mut out: Vec<HintEntry> = Vec::new();
    let es = match json_array(v) {
        Some(a) => a,
        None => {
            assert(out@.map_values(|x: HintEntry| hint_view(x)) =~= hints_spec(*v));
            return out;
        },
    };
    let ghost ev = es@;
    let mut i: usize = 0;
    assert(out@.map_values(|x: HintEntry| hint_view(x)) =~= collect(ev.take(0), f));
    while i < es.len()
        invariant
            i <= ev.len(),
            ev == es@,
            ev == elements_of(*v),
            f == (|h: serde_json::Value| Some(hint_at(h))),
            out@.map_values(|x: HintEntry| hint_view(x)) == collect(ev.take(i as int), f),
        decreases ev.len() - i,
    {
        proof {
            lemma_collect_step(ev, f, i as int);
        }
        let ghost before = out@;
        let x = hint_exec(&es[i]);
        out.push(x);
        proof {
            assert(out@.map_values(|x: HintEntry| hint_view(x))
                =~= before.map_values(|x: HintEntry| hint_view(x)).push(hint_view(out@[before.len() as int])));
        }
        i += 1;
    }
    assert(ev.take(ev.len() as int) =~= ev);
    out
}

// ---------------------------------------------------------------- highlights

/// A highlight element of a reply: its range's start and end, each as a
/// line and UTF-16 units.
pub open spec fn highlight_of(e: serde_json::Value) -> (usize, usize, usize, usize) {
    (
        num_at3(e, "range"@, "start"@, "line"@),
        num_at3(e, "range"@, "start"@, "character"@),
        num_at3(e, "range"@, "end"@, "line"@),
        num_at3(e, "range"@, "end"@, "character"@),
    )
}

/// Every range of a `textDocument/documentHighlight` reply, in order.
pub open spec fn highlights_spec(v: serde_json::Value) -> Seq<(usize, usize, usize, usize)> {
    collect(elements_of(v), |e: serde_json::Value| Some(highlight_of(e)))
}

/// Every range of a `textDocument/documentHighlight` reply (see
/// [`highlights_spec`]).
pub fn highlights(v: &serde_json::Value) -> (r: Vec<(usize, usize, usize, usize)>)
    ensures
        r@ == highlights_spec(*v),
{
    let ghost f = |e: serde_json::Value| Some(highlight_of(e));
    let mut out: Vec<(usize, usize, usize, usize)> = Vec::new();
    let es = match json_array(v) {
        Some(a) => a,
        None => {
            assert(out@ =~= highlights_spec(*v));
            return out;
        },
    };
    let ghost ev = es@;
    let mut i: usize = 0;
    assert(out@ =~= collect(ev.take(0), f));
    while i < es.len()
        invariant
            i <= ev.len(),
            ev == es@,
            ev == elements_of(*v),
            f == (|e: serde_json::Value| Some(highlight_of(e))),
            out@ == collect(ev.take(i as int), f),
        decreases ev.len() - i,
    {
        proof {
            lemma_collect_step(ev, f, i as int);
        }
        let e = &es[i];
        out.push((
            num_at3_exec(e, "range", "start", "line"),
            num_at3_exec(e, "range", "start", "character"),
            num_at3_exec(e, "range", "end", "line"),
            num_at3_exec(e, "range", "end", "character"),
        ));
        i += 1;
    }
    assert(ev.take(ev.len() as int) =~= ev);
    out
}

// ---------------------------------------------------------------- code actions

/// A code action as listed: its title and the action itself.
pub struct ActionEntry {
    pub title: String,
    pub action: serde_json::Value,
}

pub open spec fn action_view(e: ActionEntry) -> (Seq<char>, serde_json::Value) {
    (e.title@, e.action)
}

/// Whether the server marks an action as its preferred one.
pub open spec fn preferred(a: serde_json::Value) -> bool {
    is_true(at(Some(a), "isPreferred"@))
}

/// How an action is listed: its title (`Code action` without one), with
/// `* ` before it when preferred and the reason after it when disabled.
pub open spec fn action_title(a: serde_json::Value) -> Seq<char> {
    let t0 = match text_of(at(Some(a), "title"@)) {
        Some(t) => t,
        None => "Code action"@,
    };
    let t1 = if preferred(a) { "* "@ + t0 } else { t0 };
    match text_of(at(at(Some(a), "disabled"@), "reason"@)) {
        Some(r) => t1 + " (disabled: "@ + r + ")"@,
        None => t1,
    }
}

pub open spec fn action_of(a: serde_json::Value, pref: bool) -> Option<(Seq<char>, serde_json::Value)> {
    if preferred(a) == pref { Some((action_title(a), a)) } else { None }
}

/// The actions of a `textDocument/codeAction` reply as listed: the
/// preferred ones first, each group in the server's order; disabled ones
/// stay, with their reason.
pub open spec fn actions_spec(v: serde_json::Value) -> Seq<(Seq<char>, serde_json::Value)> {
    collect(elements_of(v), |a: serde_json::Value| action_of(a, true))
        + collect(elements_of(v), |a: serde_json::Value| action_of(a, false))
}

fn title_exec(a: &serde_json::Value) -> (r: String)
    ensures
        r@ == action_title(*a),
{
    let t0 = match text_exec(at_exec(Some(a), "title")) {
        Some(t) => chars_of(t.as_str()),
        None => chars_of("Code action"),
    };
    let mut t: Vec<char> = Vec::new();
    if true_exec(at_exec(Some(a), "isPreferred")) {
        extend_chars(&mut t, &chars_of("* "));
    }
    extend_chars(&mut t, &t0);
    proof {
        if !preferred(*a) {
            assert(t@ =~= t0@);
        }
    }
    if let Some(r) = text_exec(at_exec(at_exec(Some(a), "disabled"), "reason")) {
        extend_chars(&mut t, &chars_of(" (disabled: "));
        extend_chars(&mut t, &chars_of(r.as_str()));
        extend_chars(&mut t, &chars_of(")"));
    }
    string_from(&t)
}

fn actions_with(es: &Vec<serde_json::Value>, pref: bool, out: &mut Vec<ActionEntry>)
    ensures
        final(out)@.map_values(|x: ActionEntry| action_view(x))
            == old(out)@.map_values(|x: ActionEntry| action_view(x)) + collect(es@, |a: serde_json::Value| action_of(a, pref)),
{
    let ghost f = |a: serde_json::Value| action_of(a, pref);
    let ghost start = old(out)@.map_values(|x: ActionEntry| action_view(x));
    let ghost ev = es@;
    let mut i: usize = 0;
    assert(start + collect(ev.take(0), f) =~= start);
    while i < es.len()
        invariant
            i <= ev.len(),
            ev == es@,
            f == (|a: serde_json::Value| action_of(a, pref)),
            out@.map_values(|x: ActionEntry| action_view(x)) == start + collect(ev.take(i as int), f),
        decreases ev.len() - i,
    {
        proof {
            lemma_collect_step(ev, f, i as int);
        }
        let a = &es[i];
        if true_exec(at_exec(Some(a), "isPreferred")) == pref {
            let ghost before = out@;
            out.push(ActionEntry { title: title_exec(a), action: json_clone(a) });
            proof {
                assert(out@.map_values(|x: ActionEntry| action_view(x))
                    =~= before.map_values(|x: ActionEntry| action_view(x)).push(action_view(out@[before.len() as int])));
                assert((start + collect(ev.take(i as int), f)).push(action_view(out@[before.len() as int]))
                    =~= start + collect(ev.take(i as int), f).push(action_view(out@[before.len() as int])));
            }
        }
        i += 1;
    }
    assert(ev.take(ev.len() as int) =~= ev);
}

/// The actions of a `textDocument/codeAction` reply as listed (see
/// [`actions_spec`]).
pub fn code_actions(v: &serde_json::Value) -> (r: Vec<ActionEntry>)
    ensures
        r@.map_values(|x: ActionEntry| action_view(x)) == actions_spec(*v),
{
    let mut out: Vec<ActionEntry> = Vec::new();
    match json_array(v) {
        Some(es) => {
            actions_with(es, true, &mut out);
            actions_with(es, false, &mut out);
            assert(Seq::<ActionEntry>::empty().map_values(|x: ActionEntry| action_view(x)) =~= Seq::<(Seq<char>, serde_json::Value)>::empty());
            assert(out@.map_values(|x: ActionEntry| action_view(x)) =~= actions_spec(*v));
        },
        None => {
            assert(out@.map_values(|x: ActionEntry| action_view(x)) =~= actions_spec(*v));
        },
    }
    out
}

// ---------------------------------------------------------------- hover

/// How many nested arrays hover text is read through; serde_json's parser
/// builds no deeper values.
pub open spec fn hover_depth() -> nat {
    256
}

/// The text of hover contents with `d` levels of arrays left: a string as
/// it is, an object's `value` text, an array's elements' texts one per
/// line; empty for anything else (and past the last level).
pub open spec fn hover_at(v: serde_json::Value, d: nat) -> Seq<char>
    decreases d, 0nat,
{
    if d == 0 {
        seq![]
    } else {
        match json_text(v) {
            Some(s) => s,
            None => match text_of(at(Some(v), "value"@)) {
                Some(s) => s,
                None => match json_elements(v) {
                    Some(es) => hover_list(es, (d - 1) as nat),
                    None => seq![],
                },
            },
        }
    }
}

/// The hover texts of the elements, one per line.
pub open spec fn hover_list(es: Seq<serde_json::Value>, d: nat) -> Seq<char>
    decreases d, es.len(),
{
    if es.len() == 0 {
        seq![]
    } else {
        let t = hover_at(es.last(), d);
        if es.len() == 1 { t } else { hover_list(es.drop_last(), d) + seq!['\n'] + t }
    }
}

/// The text shown for hover contents (see [`hover_at`]).
pub open spec fn hover_spec(v: Option<serde_json::Value>) -> Seq<char> {
    match v {
        Some(x) => hover_at(x, hover_depth()),
        None => seq![],
    }
}

fn hover_exec(v: &serde_json::Value, d: usize) -> (r: Vec<char>)
    ensures
        r@ == hover_at(*v, d as nat),
    decreases d,
{
    if d == 0 {
        return Vec::new();
    }
    if let Some(s) = json_str(v) {
        return chars_of(s.as_str());
    }
    if let Some(s) = text_exec(at_exec(Some(v), "value")) {
        return chars_of(s.as_str());
    }
    let es = match json_array(v) {
        Some(a) => a,
        None => return Vec::new(),
    };
    let ghost ev = es@;
    let ghost d1 = (d - 1) as nat;
    let mut out: Vec<char> = Vec::new();
    let mut i: usize = 0;
    assert(ev.take(0) =~= Seq::<serde_json::Value>::empty());
    while i < es.len()
        invariant
            i <= ev.len(),
            ev == es@,
            d > 0,
            d1 == (d - 1) as nat,
            out@ == hover_list(ev.take(i as int), d1),
        decreases ev.len() - i,
    {
        proof {
            assert(ev.take(i + 1).drop_last() =~= ev.take(i as int));
            assert(ev.take(i + 1).last() == ev[i as int]);
        }
        let t = hover_exec(&es[i], d - 1);
        if i > 0 {
            out.push('\n');
        }
        extend_chars(&mut out, &t);
        i += 1;
    }
    assert(ev.take(ev.len() as int) =~= ev);
    out
}

/// The text shown for the hover contents `v` (see [`hover_spec`]).
pub fn hover_text(v: Option<&serde_json::Value>) -> (r: String)
    ensures
        r@ == hover_spec(opt_val(v)),
{
    match v {
        Some(x) => string_from(&hover_exec(x, 256)),
        None => String::new(),
    }
}

// ---------------------------------------------------------------- locations

/// A location of a reply: the file's URI (none means the requested file),
/// the line and UTF-16 units of its start, and its symbol's name.
pub struct LocEntry {
    pub uri: Option<String>,
    pub line: usize,
    pub units: usize,
    pub name: String,
}

pub open spec fn loc_view(e: LocEntry) -> (Option<Seq<char>>, usize, usize, Seq<char>) {
    (match e.uri { Some(u) => Some(u@), None => None }, e.line, e.units, e.name@)
}

/// The most locations a reply gives.
pub open spec fn loc_cap() -> int {
    5000
}

/// The deepest nesting of a reply read for locations.
pub open spec fn loc_depth() -> int {
    64
}

/// The location a single (non-array) element gives, if it has a range:
/// its `location` member's (or its own) URI and range start, and its name.
pub open spec fn loc_of(v: serde_json::Value) -> Option<(Option<Seq<char>>, usize, usize, Seq<char>)> {
    let loc = match json_member(v, "location"@) { Some(l) => l, None => v };
    let uri = match text_of(at(Some(loc), "uri"@)) { Some(u) => Some(u), None => text_of(at(Some(loc), "targetUri"@)) };
    let range = match json_member(loc, "selectionRange"@) {
        Some(r) => Some(r),
        None => match json_member(loc, "targetSelectionRange"@) {
            Some(r) => Some(r),
            None => json_member(loc, "range"@),
        },
    };
    match range {
        Some(r) => Some((
            uri,
            num_of(at(at(Some(r), "start"@), "line"@)),
            num_of(at(at(Some(r), "start"@), "character"@)),
            match text_of(at(Some(v), "name"@)) { Some(n) => n, None => seq![] },
        )),
        None => None,
    }
}

/// The locations of reply value `v` at nesting `depth`, after `acc`: an
/// array's elements' locations in order; otherwise the value's own
/// location, then its `children`'s. Nothing past the deepest nesting or
/// once [`loc_cap`] locations are listed.
pub open spec fn locs(v: serde_json::Value, depth: int, acc: Seq<(Option<Seq<char>>, usize, usize, Seq<char>)>) -> Seq<(Option<Seq<char>>, usize, usize, Seq<char>)>
    decreases loc_depth() + 1 - depth, 0nat,
{
    if depth > loc_depth() || depth < 0 || acc.len() >= loc_cap() {
        acc
    } else {
        match json_elements(v) {
            Some(es) => locs_list(es, depth + 1, acc),
            None => {
                let acc2 = match loc_of(v) { Some(x) => acc.push(x), None => acc };
                match json_member(v, "children"@) {
                    Some(c) => locs(c, depth + 1, acc2),
                    None => acc2,
                }
            },
        }
    }
}

/// The locations of each element in turn, after `acc`.
pub open spec fn locs_list(es: Seq<serde_json::Value>, depth: int, acc: Seq<(Option<Seq<char>>, usize, usize, Seq<char>)>) -> Seq<(Option<Seq<char>>, usize, usize, Seq<char>)>
    decreases loc_depth() + 1 - depth, es.len(),
{
    if es.len() == 0 || depth > loc_depth() + 1 || depth < 1 {
        acc
    } else {
        locs_list(es.drop_first(), depth, locs(es[0], depth, acc))
    }
}

/// The locations of a definition, references, symbols or outline reply.
pub open spec fn locations_spec(v: serde_json::Value) -> Seq<(Option<Seq<char>>, usize, usize, Seq<char>)> {
    locs(v, 0, seq![])
}

fn loc_exec(v: &serde_json::Value) -> (r: Option<LocEntry>)
    ensures
        match r {
            Some(x) => loc_of(*v) == Some(loc_view(x)),
            None => loc_of(*v) is None,
        },
{
    let loc = match json_get(v, "location") {
        Some(l) => l,
        None => v,
    };
    let uri = match text_exec(at_exec(Some(loc), "uri")) {
        Some(u) => Some(u),
        None => text_exec(at_exec(Some(loc), "targetUri")),
    };
    let range = match json_get(loc, "selectionRange") {
        Some(r) => Some(r),
        None => match json_get(loc, "targetSelectionRange") {
            Some(r) => Some(r),
            None => json_get(loc, "range"),
        },
    };
    match range {
        Some(r) => {
            let line = num_exec(at_exec(at_exec(Some(r), "start"), "line"));
            let units = num_exec(at_exec(at_exec(Some(r), "start"), "character"));
            let name = match text_exec(at_exec(Some(v), "name")) {
                Some(n) => n,
                None => String::new(),
            };
            Some(LocEntry { uri, line, units, name })
        },
        None => None,
    }
}

pub open spec fn locs_view(v: Seq<LocEntry>) -> Seq<(Option<Seq<char>>, usize, usize, Seq<char>)> {
    v.map_values(|x: LocEntry| loc_view(x))
}

fn locs_exec(v: &serde_json::Value, depth: usize, out: &mut Vec<LocEntry>)
    requires
        depth <= 65,
    ensures
        locs_view(final(out)@) == locs(*v, depth as int, locs_view(old(out)@)),
    decreases 65 - depth, 0nat,
{
    if depth > 64 || out.len() >= 5000 {
        return;
    }
    match json_array(v) {
        Some(es) => {
            let ghost ev = es@;
            let ghost target = locs_list(ev, depth + 1, locs_view(out@));
            let mut i: usize = 0;
            assert(ev.skip(0) =~= ev);
            while i < es.len()
                invariant
                    i <= ev.len(),
                    ev == es@,
                    depth <= 64,
                    locs_list(ev.skip(i as int), depth + 1, locs_view(out@)) == target,
                decreases ev.len() - i,
            {
                proof {
                    assert(ev.skip(i as int)[0] == ev[i as int]);
                    assert(ev.skip(i as int).drop_first() =~= ev.skip(i + 1));
                }
                locs_exec(&es[i], depth + 1, out);
                i += 1;
            }
            assert(ev.skip(ev.len() as int) =~= Seq::<serde_json::Value>::empty());
        },
        None => {
            let ghost before = locs_view(out@);
            match loc_exec(v) {
                Some(x) => {
                    out.push(x);
                    proof {
                        assert(locs_view(out@) =~= before.push(loc_view(out@[before.len() as int])));
                    }
                },
                None => {},
            }
            match json_get(v, "children") {
                Some(c) => locs_exec(c, depth + 1, out),
                None => {},
            }
        },
    }
}

/// The locations of a definition, references, symbols or outline reply
/// (see [`locations_spec`]).
pub fn locations(v: &serde_json::Value) -> (r: Vec<LocEntry>)
    ensures
        locs_view(r@) == locations_spec(*v),
{
    let mut out: Vec<LocEntry> = Vec::new();
    assert(locs_view(out@) =~= Seq::<(Option<Seq<char>>, usize, usize, Seq<char>)>::empty());
    locs_exec(v, 0, &mut out);
    out
}

// ---------------------------------------------------------------- text edits

pub open spec fn raw_pos_of(o: Option<serde_json::Value>) -> crate::language::RawPos {
    crate::language::RawPos {
        line: match at(o, "line"@) { Some(x) => json_unsigned(x), None => None },
        character: match at(o, "character"@) { Some(x) => json_unsigned(x), None => None },
    }
}

/// A text edit element by its parts: its range (under `range`, else
/// `replace`) as two positions, and its new text; whatever is missing or
/// of the wrong kind reads as absent, for `validate_edits` to refuse.
pub open spec fn raw_edit_of(e: serde_json::Value) -> (Option<(crate::language::RawPos, crate::language::RawPos)>, Option<Seq<char>>) {
    let r = match json_member(e, "range"@) { Some(r) => Some(r), None => json_member(e, "replace"@) };
    (
        match r { Some(x) => Some((raw_pos_of(at(Some(x), "start"@)), raw_pos_of(at(Some(x), "end"@)))), None => None },
        text_of(at(Some(e), "newText"@)),
    )
}

pub open spec fn raw_edit_view(e: crate::language::RawEdit) -> (Option<(crate::language::RawPos, crate::language::RawPos)>, Option<Seq<char>>) {
    (e.range, match e.new_text { Some(t) => Some(t@), None => None })
}

/// The text edits of a reply that is an array of them; none for anything
/// else.
pub open spec fn raw_edits_spec(v: serde_json::Value) -> Option<Seq<(Option<(crate::language::RawPos, crate::language::RawPos)>, Option<Seq<char>>)>> {
    match json_elements(v) {
        Some(es) => Some(es.map_values(|e: serde_json::Value| raw_edit_of(e))),
        None => None,
    }
}

fn raw_pos_exec(o: Option<&serde_json::Value>) -> (r: crate::language::RawPos)
    ensures
        r == raw_pos_of(opt_val(o)),
{
    crate::language::RawPos {
        line: match at_exec(o, "line") { Some(x) => json_u64(x), None => None },
        character: match at_exec(o, "character") { Some(x) => json_u64(x), None => None },
    }
}

/// The text edits of a reply (see [`raw_edits_spec`]), ready for
/// `validate_edits`; none when the reply is not an array.
pub fn raw_edits(v: &serde_json::Value) -> (r: Option<Vec<crate::language::RawEdit>>)
    ensures
        match (r, raw_edits_spec(*v)) {
            (Some(x), Some(y)) => x@.map_values(|e: crate::language::RawEdit| raw_edit_view(e)) == y,
            (None, None) => true,
            _ => false,
        },
{
    let es = match json_array(v) {
        Some(a) => a,
        None => return None,
    };
    let ghost ev = es@;
    let mut out: Vec<crate::language::RawEdit> = Vec::new();
    let mut i: usize = 0;
    while i < es.len()
        invariant
            i <= ev.len(),
            ev == es@,
            out@.map_values(|e: crate::language::RawEdit| raw_edit_view(e))
                == ev.take(i as int).map_values(|e: serde_json::Value| raw_edit_of(e)),
        decreases ev.len() - i,
    {
        let e = &es[i];
        let r = match json_get(e, "range") {
            Some(r) => Some(r),
            None => json_get(e, "replace"),
        };
        let range = match r {
            Some(x) => Some((raw_pos_exec(json_get(x, "start")), raw_pos_exec(json_get(x, "end")))),
            None => None,
        };
        let new_text = text_exec(at_exec(Some(e), "newText"));
        let ghost before = out@;
        out.push(crate::language::RawEdit { range, new_text });
        proof {
            assert(out@.map_values(|e: crate::language::RawEdit| raw_edit_view(e))
                =~= before.map_values(|e: crate::language::RawEdit| raw_edit_view(e)).push(raw_edit_view(out@[i as int])));
            assert(ev.take(i + 1).map_values(|e: serde_json::Value| raw_edit_of(e))
                =~= ev.take(i as int).map_values(|e: serde_json::Value| raw_edit_of(e)).push(raw_edit_of(ev[i as int])));
        }
        i += 1;
    }
    assert(ev.take(ev.len() as int) =~= ev);
    Some(out)
}

// ---------------------------------------------------------------- workspace edits

/// The edits of one document in a workspace edit: its URI, its text edits
/// and the document version they were made against, when given.
pub struct DocEdits {
    pub uri: String,
    pub edits: Vec<crate::language::RawEdit>,
    pub version: Option<i64>,
}

pub type DocV = (Seq<char>, Seq<(Option<(crate::language::RawPos, crate::language::RawPos)>, Option<Seq<char>>)>, Option<i64>);

pub open spec fn doc_view(d: DocEdits) -> DocV {
    (d.uri@, d.edits@.map_values(|e: crate::language::RawEdit| raw_edit_view(e)), d.version)
}

/// What a workspace edit asks for.
pub enum WorkspacePlan {
    /// File creations, renames or deletions: handled as a resource edit.
    Resource,
    /// Text edits, document by document.
    Docs(Vec<DocEdits>),
}

pub enum WorkspacePlanV {
    Resource,
    Docs(Seq<DocV>),
}

pub open spec fn invalid_edits() -> Seq<char> {
    "invalid edits"@
}

/// The documents of a `changes` map, in its order; the first whose edits
/// are not an array is an error.
pub open spec fn docs_of_changes(es: Seq<(Seq<char>, serde_json::Value)>) -> Result<Seq<DocV>, Seq<char>>
    decreases es.len(),
{
    if es.len() == 0 {
        Ok(seq![])
    } else {
        match docs_of_changes(es.drop_last()) {
            Err(m) => Err(m),
            Ok(ds) => match raw_edits_spec(es.last().1) {
                None => Err(invalid_edits()),
                Some(x) => Ok(ds.push((es.last().0, x, None))),
            },
        }
    }
}

/// One element of `documentChanges`: its document's URI and version and
/// its edits; a file operation, a missing URI or edits that are not an
/// array are errors.
pub open spec fn doc_change(c: serde_json::Value) -> Result<DocV, Seq<char>> {
    if json_member(c, "kind"@) is Some {
        Err("File create/rename/delete operations are not supported by this edit"@)
    } else {
        match text_of(at(at(Some(c), "textDocument"@), "uri"@)) {
            None => Err("missing document URI"@),
            Some(uri) => match at(Some(c), "edits"@) {
                None => Err(invalid_edits()),
                Some(ev) => match raw_edits_spec(ev) {
                    None => Err(invalid_edits()),
                    Some(x) => Ok((uri, x, match at(at(Some(c), "textDocument"@), "version"@) {
                        Some(n) => json_signed(n),
                        None => None,
                    })),
                },
            },
        }
    }
}

/// The documents of `documentChanges`, in order; the first error stops.
pub open spec fn docs_of_doc_changes(cs: Seq<serde_json::Value>) -> Result<Seq<DocV>, Seq<char>>
    decreases cs.len(),
{
    if cs.len() == 0 {
        Ok(seq![])
    } else {
        match docs_of_doc_changes(cs.drop_last()) {
            Err(m) => Err(m),
            Ok(ds) => match doc_change(cs.last()) {
                Err(m) => Err(m),
                Ok(d) => Ok(ds.push(d)),
            },
        }
    }
}

/// Whether an element of `documentChanges` is a file operation.
pub open spec fn is_file_op(c: serde_json::Value) -> bool {
    json_member(c, "kind"@) is Some
}

/// Whether `documentChanges` holds a file operation.
pub open spec fn has_file_op(dc: Option<Seq<serde_json::Value>>) -> bool {
    dc matches Some(cs) && exists|k: int| 0 <= k < cs.len() && #[trigger] is_file_op(cs[k])
}

/// The documents of a workspace edit's `changes` map (none without one).
pub open spec fn changes_result(v: serde_json::Value) -> Result<Seq<DocV>, Seq<char>> {
    match at(Some(v), "changes"@) {
        Some(c) => match json_entries(c) {
            Some(es) => docs_of_changes(es),
            None => Ok(seq![]),
        },
        None => Ok(seq![]),
    }
}

/// What a workspace edit asks for: not an object is an error; any file
/// operation in `documentChanges` makes it a resource edit; otherwise the
/// documents of `changes` then those of `documentChanges`, the first
/// error stopping it.
pub open spec fn workspace_plan_spec(v: serde_json::Value) -> Result<WorkspacePlanV, Seq<char>> {
    if !json_is_object(v) {
        Err("No workspace edits returned"@)
    } else {
        let dc = match at(Some(v), "documentChanges"@) { Some(d) => json_elements(d), None => None };
        if has_file_op(dc) {
            Ok(WorkspacePlanV::Resource)
        } else {
            match changes_result(v) {
                Err(m) => Err(m),
                Ok(a) => match dc {
                    Some(cs) => match docs_of_doc_changes(cs) {
                        Err(m) => Err(m),
                        Ok(b) => Ok(WorkspacePlanV::Docs(a + b)),
                    },
                    None => Ok(WorkspacePlanV::Docs(a)),
                },
            }
        }
    }
}

pub open spec fn workspace_view(r: Result<WorkspacePlan, String>) -> Result<WorkspacePlanV, Seq<char>> {
    match r {
        Ok(WorkspacePlan::Resource) => Ok(WorkspacePlanV::Resource),
        Ok(WorkspacePlan::Docs(d)) => Ok(WorkspacePlanV::Docs(d@.map_values(|x: DocEdits| doc_view(x)))),
        Err(m) => Err(m@),
    }
}

fn doc_change_exec(c: &serde_json::Value) -> (r: Result<DocEdits, String>)
    ensures
        match (r, doc_change(*c)) {
            (Ok(x), Ok(y)) => doc_view(x) == y,
            (Err(a), Err(b)) => a@ == b,
            _ => false,
        },
{
    if json_get(c, "kind").is_some() {
        return Err(lit("File create/rename/delete operations are not supported by this edit"));
    }
    let td = at_exec(Some(c), "textDocument");
    let uri = match text_exec(at_exec(td, "uri")) {
        Some(u) => u,
        None => return Err(lit("missing document URI")),
    };
    let ev = match json_get(c, "edits") {
        Some(e) => e,
        None => return Err(lit("invalid edits")),
    };
    let edits = match raw_edits(ev) {
        Some(x) => x,
        None => return Err(lit("invalid edits")),
    };
    let version = match at_exec(td, "version") {
        Some(n) => json_i64(n),
        None => None,
    };
    Ok(DocEdits { uri, edits, version })
}

/// What a workspace edit asks for (see [`workspace_plan_spec`]).
pub fn plan_workspace_edit(v: &serde_json::Value) -> (r: Result<WorkspacePlan, String>)
    ensures
        workspace_view(r) == workspace_plan_spec(*v),
{
    if !json_object(v) {
        return Err(lit("No workspace edits returned"));
    }
    let dc = match json_get(v, "documentChanges") {
        Some(d) => json_array(d),
        None => None,
    };
    let ghost dcs = match at(Some(*v), "documentChanges"@) { Some(d) => json_elements(d), None => None };
    assert(match dc { Some(cs) => dcs == Some(cs@), None => dcs is None });
    if let Some(cs) = dc {
        let mut k: usize = 0;
        while k < cs.len()
            invariant
                k <= cs@.len(),
                dcs == Some(cs@),
                dcs == (match at(Some(*v), "documentChanges"@) { Some(d) => json_elements(d), None => None }),
                json_is_object(*v),
                forall|m: int| 0 <= m < k ==> !is_file_op(#[trigger] cs@[m]),
            decreases cs@.len() - k,
        {
            let kind = json_get(&cs[k], "kind");
            if kind.is_some() {
                assert(is_file_op(cs@[k as int]));
                assert(has_file_op(dcs));
                assert(workspace_plan_spec(*v) == Ok::<WorkspacePlanV, Seq<char>>(WorkspacePlanV::Resource));
                return Ok(WorkspacePlan::Resource);
            }
            k += 1;
        }
    }
    assert(!has_file_op(dcs));
    let mut docs: Vec<DocEdits> = Vec::new();
    let ghost ch: Seq<(Seq<char>, serde_json::Value)> = match at(Some(*v), "changes"@) {
        Some(c) => match json_entries(c) { Some(es) => es, None => seq![] },
        None => seq![],
    };
    let members = match json_get(v, "changes") {
        Some(c) => match json_members(c) {
            Some(m) => m,
            None => Vec::new(),
        },
        None => Vec::new(),
    };
    proof {
        assert(members@.map_values(|e: (String, serde_json::Value)| (e.0@, e.1)) =~= ch);
        assert(docs_of_changes(Seq::<(Seq<char>, serde_json::Value)>::empty()) == Ok::<Seq<DocV>, Seq<char>>(seq![]));
        assert(changes_result(*v) == docs_of_changes(ch));
    }
    let mut i: usize = 0;
    assert(ch.take(0) =~= Seq::<(Seq<char>, serde_json::Value)>::empty());
    assert(docs@.map_values(|x: DocEdits| doc_view(x)) =~= Seq::<DocV>::empty());
    while i < members.len()
        invariant
            i <= members@.len(),
            docs@.len() == i,
            json_is_object(*v),
            !has_file_op(dcs),
            dcs == (match at(Some(*v), "documentChanges"@) { Some(d) => json_elements(d), None => None }),
            changes_result(*v) == docs_of_changes(ch),
            ch == (match at(Some(*v), "changes"@) {
                Some(c) => match json_entries(c) { Some(es) => es, None => seq![] },
                None => seq![],
            }),
            members@.map_values(|e: (String, serde_json::Value)| (e.0@, e.1)) == ch,
            docs_of_changes(ch.take(i as int)) == Ok::<Seq<DocV>, Seq<char>>(docs@.map_values(|x: DocEdits| doc_view(x))),
        decreases members@.len() - i,
    {
        proof {
            assert(ch.take(i + 1).drop_last() =~= ch.take(i as int));
            assert(ch.take(i + 1).last() == ch[i as int]);
            assert(ch[i as int] == (members@[i as int].0@, members@[i as int].1));
        }
        let edits = match raw_edits(&members[i].1) {
            Some(x) => x,
            None => {
                proof {
                    lemma_changes_err(ch, i as int, ch.len() as int);
                    assert(ch.take(ch.len() as int) =~= ch);
                }
                return Err(lit("invalid edits"));
            },
        };
        let ghost before = docs@;
        docs.push(DocEdits { uri: string_from(&chars_of(members[i].0.as_str())), edits, version: None });
        proof {
            assert(docs@.map_values(|x: DocEdits| doc_view(x))
                =~= before.map_values(|x: DocEdits| doc_view(x)).push(doc_view(docs@[i as int])));
        }
        i += 1;
    }
    proof {
        assert(ch.take(ch.len() as int) =~= ch);
    }
    let ghost na = docs@.len();
    let ghost a = docs@.map_values(|x: DocEdits| doc_view(x));
    if let Some(cs) = dc {
        let ghost cv = cs@;
        let mut j: usize = 0;
        assert(cv.take(0) =~= Seq::<serde_json::Value>::empty());
        assert(a + Seq::<DocV>::empty() =~= a);
        while j < cs.len()
            invariant
                j <= cv.len(),
                cv == cs@,
                json_is_object(*v),
                !has_file_op(dcs),
                dcs == Some(cv),
                dcs == (match at(Some(*v), "documentChanges"@) { Some(d) => json_elements(d), None => None }),
                docs_of_changes(ch) == Ok::<Seq<DocV>, Seq<char>>(a),
                changes_result(*v) == docs_of_changes(ch),
                ch == (match at(Some(*v), "changes"@) {
                    Some(c) => match json_entries(c) { Some(es) => es, None => seq![] },
                    None => seq![],
                }),
                docs_of_doc_changes(cv.take(j as int)) matches Ok(b) && docs@.map_values(|x: DocEdits| doc_view(x)) == a + b,
            decreases cv.len() - j,
        {
            proof {
                assert(cv.take(j + 1).drop_last() =~= cv.take(j as int));
                assert(cv.take(j + 1).last() == cv[j as int]);
            }
            match doc_change_exec(&cs[j]) {
                Ok(d) => {
                    let ghost before = docs@;
                    docs.push(d);
                    proof {
                        let b = docs_of_doc_changes(cv.take(j as int))->Ok_0;
                        assert(docs@.map_values(|x: DocEdits| doc_view(x))
                            =~= before.map_values(|x: DocEdits| doc_view(x)).push(doc_view(docs@[before.len() as int])));
                        assert((a + b).push(doc_view(docs@[before.len() as int])) =~= a + b.push(doc_view(docs@[before.len() as int])));
                    }
                },
                Err(m) => {
                    proof {
                        lemma_doc_changes_err(cv, j as int, cv.len() as int);
                        assert(cv.take(cv.len() as int) =~= cv);
                    }
                    return Err(m);
                },
            }
            j += 1;
        }
        proof {
            assert(cv.take(cv.len() as int) =~= cv);
        }
    }
    Ok(WorkspacePlan::Docs(docs))
}

proof fn lemma_changes_err(es: Seq<(Seq<char>, serde_json::Value)>, k: int, m: int)
    requires
        0 <= k < m <= es.len(),
        docs_of_changes(es.take(k)) is Ok,
        raw_edits_spec(es[k].1) is None,
    ensures
        docs_of_changes(es.take(m)) == Err::<Seq<DocV>, Seq<char>>(invalid_edits()),
    decreases m - k,
{
    if m > k + 1 {
        lemma_changes_err(es, k, m - 1);
        assert(es.take(m).drop_last() =~= es.take(m - 1));
    } else {
        assert(es.take(m).drop_last() =~= es.take(k));
        assert(es.take(m).last() == es[k]);
    }
}

proof fn lemma_doc_changes_err(cs: Seq<serde_json::Value>, k: int, m: int)
    requires
        0 <= k < m <= cs.len(),
        docs_of_doc_changes(cs.take(k)) is Ok,
        doc_change(cs[k]) is Err,
    ensures
        docs_of_doc_changes(cs.take(m)) == Err::<Seq<DocV>, Seq<char>>(doc_change(cs[k])->Err_0),
    decreases m - k,
{
    if m > k + 1 {
        lemma_doc_changes_err(cs, k, m - 1);
        assert(cs.take(m).drop_last() =~= cs.take(m - 1));
    } else {
        assert(cs.take(m).drop_last() =~= cs.take(k));
        assert(cs.take(m).last() == cs[k]);
    }
}

// ---------------------------------------------------------------- the plan

/// What the editor does with a reply.
pub enum ResultPlan {
    /// Nothing (an unknown kind, or a completion resolve after leaving
    /// Insert mode).
    Nothing,
    /// Accept the selected completion; fold the resolved item in first
    /// only when the reply still matches the selection.
    ResolveCompletion { matched: bool },
    /// Merge the server's completion batch into the popup.
    Completion,
    /// Show this text under this title.
    Show { title: String, text: String },
    /// Refresh the outline window.
    OutlineNodes,
    /// List these links.
    Links(Vec<LinkEntry>),
    /// Keep these lenses, listing them, or show the message when there are
    /// none.
    Lenses { lenses: Vec<LensEntry>, message: Option<String> },
    /// Keep these hints and show the message.
    Hints { hints: Vec<HintEntry>, message: String },
    /// Highlight these ranges and show the message.
    Highlights { ranges: Vec<(usize, usize, usize, usize)>, message: String },
    /// List these locations; jump straight to a lone one when asked to.
    Locations { auto_jump: bool, locations: Vec<LocEntry> },
    /// Apply the reply's edits to the requested file.
    Format,
    /// Apply the reply as a workspace edit.
    Rename,
    /// List these code actions.
    Actions(Vec<ActionEntry>),
    /// Run this code action.
    OrganizeImports(serde_json::Value),
    /// Run the resolved code action the reply holds.
    Resolved,
    /// Show this message.
    Message(String),
}

/// The model of a [`ResultPlan`].
pub enum ResultPlanV {
    Nothing,
    ResolveCompletion(bool),
    Completion,
    Show(Seq<char>, Seq<char>),
    OutlineNodes,
    Links(Seq<(usize, usize, Seq<char>, Seq<char>)>),
    Lenses(Seq<(usize, Seq<char>, serde_json::Value)>, Option<Seq<char>>),
    Hints(Seq<(usize, usize, Seq<char>)>, Seq<char>),
    Highlights(Seq<(usize, usize, usize, usize)>, Seq<char>),
    Locations(bool, Seq<(Option<Seq<char>>, usize, usize, Seq<char>)>),
    Format,
    Rename,
    Actions(Seq<(Seq<char>, serde_json::Value)>),
    OrganizeImports(serde_json::Value),
    Resolved,
    Message(Seq<char>),
}

pub open spec fn result_plan_view(p: ResultPlan) -> ResultPlanV {
    match p {
        ResultPlan::Nothing => ResultPlanV::Nothing,
        ResultPlan::ResolveCompletion { matched } => ResultPlanV::ResolveCompletion(matched),
        ResultPlan::Completion => ResultPlanV::Completion,
        ResultPlan::Show { title, text } => ResultPlanV::Show(title@, text@),
        ResultPlan::OutlineNodes => ResultPlanV::OutlineNodes,
        ResultPlan::Links(v) => ResultPlanV::Links(v@.map_values(|x: LinkEntry| link_view(x))),
        ResultPlan::Lenses { lenses, message } => ResultPlanV::Lenses(
            lenses@.map_values(|x: LensEntry| lens_view(x)),
            match message { Some(m) => Some(m@), None => None },
        ),
        ResultPlan::Hints { hints, message } => ResultPlanV::Hints(hints@.map_values(|x: HintEntry| hint_view(x)), message@),
        ResultPlan::Highlights { ranges, message } => ResultPlanV::Highlights(ranges@, message@),
        ResultPlan::Locations { auto_jump, locations } => ResultPlanV::Locations(auto_jump, locs_view(locations@)),
        ResultPlan::Format => ResultPlanV::Format,
        ResultPlan::Rename => ResultPlanV::Rename,
        ResultPlan::Actions(v) => ResultPlanV::Actions(v@.map_values(|x: ActionEntry| action_view(x))),
        ResultPlan::OrganizeImports(a) => ResultPlanV::OrganizeImports(a),
        ResultPlan::Resolved => ResultPlanV::Resolved,
        ResultPlan::Message(m) => ResultPlanV::Message(m@),
    }
}

pub open spec fn hints_message(n: nat) -> Seq<char> {
    if n == 0 { "No inlay hints"@ } else { crate::markdown::decimal(n) + " inlay hint(s) — Esc to clear"@ }
}

pub open spec fn highlights_message(n: nat) -> Seq<char> {
    if n == 0 {
        "No other occurrences found"@
    } else {
        crate::markdown::decimal(n) + " occurrence(s) highlighted — Esc to clear"@
    }
}

/// The kinds whose reply is a list of locations.
pub open spec fn location_kind(kind: Seq<char>) -> bool {
    kind == "definition"@ || kind == "typeDefinition"@ || kind == "implementation"@ || kind == "declaration"@
        || kind == "references"@ || kind == "outline"@ || kind == "workspaceSymbols"@
}

/// The kinds that jump straight to a lone location.
pub open spec fn jump_kind(kind: Seq<char>) -> bool {
    kind == "definition"@ || kind == "typeDefinition"@ || kind == "implementation"@ || kind == "declaration"@
}

/// What the editor does with the reply `v` to a request of `kind`:
/// `in_insert` says whether it is in Insert mode, `expected` names the
/// completion resolve the popup's selection still waits for, and
/// `outline_window` whether an outline window is open.
pub open spec fn result_plan_spec(kind: Seq<char>, v: serde_json::Value, in_insert: bool, expected: Option<Seq<char>>, outline_window: bool) -> ResultPlanV {
    if crate::text::matches_at(kind, 0, "completion_resolve:"@) {
        if in_insert { ResultPlanV::ResolveCompletion(expected == Some(kind)) } else { ResultPlanV::Nothing }
    } else if kind == "completion"@ {
        ResultPlanV::Completion
    } else if kind == "hover"@ {
        ResultPlanV::Show("Hover"@, hover_spec(at(Some(v), "contents"@)))
    } else if kind == "signature"@ {
        ResultPlanV::Show("Signature help"@, crate::language::signature_text_spec(v))
    } else if kind == "outline"@ && outline_window {
        ResultPlanV::OutlineNodes
    } else if kind == "documentLinks"@ {
        if links_spec(v).len() == 0 {
            ResultPlanV::Message("No document links found"@)
        } else {
            ResultPlanV::Links(links_spec(v))
        }
    } else if kind == "codeLens"@ {
        ResultPlanV::Lenses(lenses_spec(v), if lenses_spec(v).len() == 0 { Some("No code lenses"@) } else { None })
    } else if kind == "inlayHints"@ {
        ResultPlanV::Hints(hints_spec(v), hints_message(hints_spec(v).len()))
    } else if kind == "documentHighlight"@ {
        ResultPlanV::Highlights(highlights_spec(v), highlights_message(highlights_spec(v).len()))
    } else if location_kind(kind) {
        ResultPlanV::Locations(jump_kind(kind), locations_spec(v))
    } else if kind == "format"@ {
        if json_null(v) { ResultPlanV::Message("No formatting edits"@) } else { ResultPlanV::Format }
    } else if kind == "rename"@ {
        ResultPlanV::Rename
    } else if kind == "actions"@ {
        ResultPlanV::Actions(actions_spec(v))
    } else if kind == "organizeImports"@ {
        if elements_of(v).len() > 0 {
            ResultPlanV::OrganizeImports(elements_of(v)[0])
        } else {
            ResultPlanV::Message("No organize-imports action available"@)
        }
    } else if kind == "resolve"@ {
        ResultPlanV::Resolved
    } else if kind == "execute"@ {
        ResultPlanV::Message("Code action completed"@)
    } else {
        ResultPlanV::Nothing
    }
}

fn is_kind(k: &Vec<char>, lit: &str) -> (r: bool)
    ensures
        r == (k@ == lit@),
{
    crate::text::chars_eq(k, &chars_of(lit))
}

fn count_message(n: usize, zero: &str, tail: &str) -> (r: String)
    ensures
        r@ == if n == 0 { zero@ } else { crate::markdown::decimal(n as nat) + tail@ },
{
    if n == 0 {
        return lit(zero);
    }
    let mut m: Vec<char> = Vec::new();
    crate::markdown::push_decimal(&mut m, n as u128);
    extend_chars(&mut m, &chars_of(tail));
    proof {
        assert(Seq::<char>::empty() + crate::markdown::decimal(n as nat) =~= crate::markdown::decimal(n as nat));
    }
    string_from(&m)
}

/// What the editor does with a language server's reply (see
/// [`result_plan_spec`]).
pub fn plan_language_result(kind: &str, reply: &serde_json::Value, in_insert: bool, expected_resolve: Option<&str>, outline_window: bool) -> (r: ResultPlan)
    ensures
        result_plan_view(r) == result_plan_spec(
            kind@,
            *reply,
            in_insert,
            match expected_resolve { Some(e) => Some(e@), None => None },
            outline_window,
        ),
{
    let k = chars_of(kind);
    if crate::text::starts_at(&k, 0, &chars_of("completion_resolve:")) {
        if !in_insert {
            return ResultPlan::Nothing;
        }
        let matched = match expected_resolve {
            Some(e) => crate::text::chars_eq(&chars_of(e), &k),
            None => false,
        };
        return ResultPlan::ResolveCompletion { matched };
    }
    if is_kind(&k, "completion") {
        return ResultPlan::Completion;
    }
    if is_kind(&k, "hover") {
        return ResultPlan::Show { title: lit("Hover"), text: hover_text(json_get(reply, "contents")) };
    }
    if is_kind(&k, "signature") {
        return ResultPlan::Show { title: lit("Signature help"), text: crate::language::signature_text(reply) };
    }
    if is_kind(&k, "outline") && outline_window {
        return ResultPlan::OutlineNodes;
    }
    if is_kind(&k, "documentLinks") {
        let ls = document_links(reply);
        if ls.len() == 0 {
            return ResultPlan::Message(lit("No document links found"));
        }
        return ResultPlan::Links(ls);
    }
    if is_kind(&k, "codeLens") {
        let ls = code_lenses(reply);
        let message = if ls.len() == 0 { Some(lit("No code lenses")) } else { None };
        return ResultPlan::Lenses { lenses: ls, message };
    }
    if is_kind(&k, "inlayHints") {
        let hs = inlay_hints(reply);
        let message = count_message(hs.len(), "No inlay hints", " inlay hint(s) — Esc to clear");
        return ResultPlan::Hints { hints: hs, message };
    }
    if is_kind(&k, "documentHighlight") {
        let rs = highlights(reply);
        let message = count_message(rs.len(), "No other occurrences found", " occurrence(s) highlighted — Esc to clear");
        return ResultPlan::Highlights { ranges: rs, message };
    }
    let jump = is_kind(&k, "definition") || is_kind(&k, "typeDefinition") || is_kind(&k, "implementation")
        || is_kind(&k, "declaration");
    if jump || is_kind(&k, "references") || is_kind(&k, "outline") || is_kind(&k, "workspaceSymbols") {
        return ResultPlan::Locations { auto_jump: jump, locations: locations(reply) };
    }
    if is_kind(&k, "format") {
        if json_is_null(reply) {
            return ResultPlan::Message(lit("No formatting edits"));
        }
        return ResultPlan::Format;
    }
    if is_kind(&k, "rename") {
        return ResultPlan::Rename;
    }
    if is_kind(&k, "actions") {
        return ResultPlan::Actions(code_actions(reply));
    }
    if is_kind(&k, "organizeImports") {
        if let Some(es) = json_array(reply) {
            if es.len() > 0 {
                return ResultPlan::OrganizeImports(json_clone(&es[0]));
            }
        }
        return ResultPlan::Message(lit("No organize-imports action available"));
    }
    if is_kind(&k, "resolve") {
        return ResultPlan::Resolved;
    }
    if is_kind(&k, "execute") {
        return ResultPlan::Message(lit("Code action completed"));
    }
    ResultPlan::Nothing
}

} // verus!
