//! Parsing of the torch name-scope strings that exporters put into ONNX
//! node metadata (`["deberta", "encoder"]`, `"deberta.encoder"`,
//! `deberta>encoder`, `deberta/encoder`, `deberta::encoder`, ...).

use vstd::prelude::*;
use crate::config::strs;
use crate::text::{
    chars_of, contains, split, string_of, trim_class, spec_contains, spec_split, spec_trim,
    spec_is_whitespace, lemma_trim_ends,
};

verus! {

/// What a scope string is as JSON: not JSON, an array (each item as its
/// string, if it is a string), a string, or any other JSON value.
pub enum ScopeJson {
    Invalid,
    List(Vec<Option<String>>),
    Text(String),
    Other,
}

pub enum ScopeJsonView {
    Invalid,
    List(Seq<Option<Seq<char>>>),
    Text(Seq<char>),
    Other,
}

pub open spec fn opt_str(o: Option<String>) -> Option<Seq<char>> {
    match o {
        Some(s) => Some(s@),
        None => None,
    }
}

impl View for ScopeJson {
    type V = ScopeJsonView;

    open spec fn view(&self) -> ScopeJsonView {
        match self {
            ScopeJson::Invalid => ScopeJsonView::Invalid,
            ScopeJson::List(items) => ScopeJsonView::List(items@.map_values(|o: Option<String>| opt_str(o))),
            ScopeJson::Text(s) => ScopeJsonView::Text(s@),
            ScopeJson::Other => ScopeJsonView::Other,
        }
    }
}

/// How `serde_json::from_str::<serde_json::Value>` reads a text, in the
/// terms of [`ScopeJson`].
pub uninterp spec fn spec_scope_json(text: Seq<char>) -> ScopeJsonView;

/// Parses `text` with `serde_json::from_str::<serde_json::Value>` and keeps
/// what scope parsing reads of the result: a parse error, an array with the
/// string items as strings, a string, or any other value.  The result is
/// the named function of the text; nothing more is claimed of it.
#[verifier::external_body]
pub(crate) fn scope_json(text: &str) -> (r: ScopeJson)
    ensures
        r@ == spec_scope_json(text@),
{
    match serde_json::from_str::<serde_json::Value>(text) {
        Err(_) => ScopeJson::Invalid,
        Ok(serde_json::Value::Array(items)) => ScopeJson::List(
            items.into_iter().map(|v| match v {
                serde_json::Value::String(s) => Some(s),
                _ => None,
            }).collect(),
        ),
        Ok(serde_json::Value::String(s)) => ScopeJson::Text(s),
        Ok(_) => ScopeJson::Other,
    }
}

/// The trimmed pieces that are not empty.
pub open spec fn spec_trim_nonempty(ps: Seq<Seq<char>>) -> Seq<Seq<char>>
    decreases ps.len(),
{
    if ps.len() == 0 {
        Seq::empty()
    } else {
        let t = spec_trim(ps.last());
        if t.len() > 0 {
            spec_trim_nonempty(ps.drop_last()).push(t)
        } else {
            spec_trim_nonempty(ps.drop_last())
        }
    }
}

/// The trimmed string items of a JSON array that are not empty.
pub open spec fn spec_trim_items(items: Seq<Option<Seq<char>>>) -> Seq<Seq<char>>
    decreases items.len(),
{
    if items.len() == 0 {
        Seq::empty()
    } else {
        match items.last() {
            Some(s) => {
                let t = spec_trim(s);
                if t.len() > 0 {
                    spec_trim_items(items.drop_last()).push(t)
                } else {
                    spec_trim_items(items.drop_last())
                }
            },
            None => spec_trim_items(items.drop_last()),
        }
    }
}

/// Splits a (non-JSON) scope string on the first of `>`, `/`, `::` that
/// it contains, else on `.`; the trimmed non-empty pieces, or the whole
/// string when it holds no separator.
pub open spec fn spec_parse_raw(raw: Seq<char>) -> Seq<Seq<char>> {
    if spec_contains(raw, ">"@) {
        spec_trim_nonempty(spec_split(raw, ">"@))
    } else if spec_contains(raw, "/"@) {
        spec_trim_nonempty(spec_split(raw, "/"@))
    } else if spec_contains(raw, "::"@) {
        spec_trim_nonempty(spec_split(raw, "::"@))
    } else if spec_contains(raw, "."@) {
        spec_trim_nonempty(spec_split(raw, "."@))
    } else {
        seq![raw]
    }
}

/// The parts of an already-trimmed, non-empty scope string, given how it
/// reads as JSON: the non-empty items of a JSON array of strings; the parts
/// of the text of a JSON string; otherwise the parts of the raw string.
pub open spec fn spec_scopes_from_json(raw: Seq<char>, json: ScopeJsonView) -> Seq<Seq<char>> {
    match json {
        ScopeJsonView::List(items) => {
            let parts = spec_trim_items(items);
            if parts.len() > 0 {
                parts
            } else {
                spec_parse_raw(raw)
            }
        },
        ScopeJsonView::Text(inner) => {
            let t = spec_trim(inner);
            if t.len() == 0 {
                Seq::empty()
            } else {
                spec_parse_raw(t)
            }
        },
        _ => spec_parse_raw(raw),
    }
}

/// The parts of a raw scope string: empty for a blank string, else the
/// parts of the trimmed string by its JSON reading.
pub open spec fn spec_parse_name_scopes(raw: Seq<char>) -> Seq<Seq<char>> {
    let t = spec_trim(raw);
    if t.len() == 0 {
        Seq::empty()
    } else {
        spec_scopes_from_json(t, spec_scope_json(t))
    }
}

fn trim_nonempty(ps: &Vec<Vec<char>>) -> (r: Vec<String>)
    ensures
        strs(r@) == spec_trim_nonempty(ps@.map_values(|p: Vec<char>| p@)),
{
    let ghost pv = ps@.map_values(|p: Vec<char>| p@);
    let mut r: Vec<String> = Vec::new();
    let mut i: usize = 0;
    while i < ps.len()
        invariant
            i <= ps@.len(),
            pv == ps@.map_values(|p: Vec<char>| p@),
            strs(r@) == spec_trim_nonempty(pv.take(i as int)),
        decreases ps@.len() - i,
    {
        assert(pv.take(i + 1).drop_last() =~= pv.take(i as int));
        assert(pv.take(i + 1).last() == ps@[i as int]@);
        let t = trim_class(ps[i].as_slice(), false);
        if t.len() > 0 {
            r.push(string_of(t.as_slice()));
            assert(strs(r@) =~= spec_trim_nonempty(pv.take(i + 1)));
        }
        i += 1;
    }
    assert(pv.take(ps@.len() as int) =~= pv);
    r
}

fn split_trim(raw: &[char], sep: &[char]) -> (r: Vec<String>)
    requires
        sep@.len() > 0,
    ensures
        strs(r@) == spec_trim_nonempty(spec_split(raw@, sep@)),
{
    let pieces = split(raw, sep);
    assert(pieces@.map_values(|p: Vec<char>| p@) =~= spec_split(raw@, sep@));
    trim_nonempty(&pieces)
}

/// Splits a (non-JSON) scope string by separator heuristics: the first of
/// `>`, `/`, `::` that occurs, else `.`; pieces are trimmed and empty ones
/// dropped.  A string without separator is its only part.
pub fn parse_name_scopes_raw(raw: &str) -> (r: Vec<String>)
    ensures
        strs(r@) == spec_parse_raw(raw@),
{
    let s = chars_of(raw);
    let gt = chars_of(">");
    let slash = chars_of("/");
    let colons = chars_of("::");
    let dot = chars_of(".");
    proof {
        reveal_strlit(">");
        reveal_strlit("/");
        reveal_strlit("::");
        reveal_strlit(".");
    }
    if contains(s.as_slice(), gt.as_slice()) {
        return split_trim(s.as_slice(), gt.as_slice());
    }
    if contains(s.as_slice(), slash.as_slice()) {
        return split_trim(s.as_slice(), slash.as_slice());
    }
    if contains(s.as_slice(), colons.as_slice()) {
        return split_trim(s.as_slice(), colons.as_slice());
    }
    if contains(s.as_slice(), dot.as_slice()) {
        return split_trim(s.as_slice(), dot.as_slice());
    }
    let r = vec![String::from_str(raw)];
    assert(strs(r@) =~= seq![raw@]);
    r
}

/// The parts of a trimmed, non-empty scope string given its JSON reading
/// (see [`spec_scopes_from_json`]).
pub fn scopes_from_json(raw: &str, json: &ScopeJson) -> (r: Vec<String>)
    ensures
        strs(r@) == spec_scopes_from_json(raw@, json@),
{
    match json {
        ScopeJson::List(items) => {
            let ghost iv = items@.map_values(|o: Option<String>| opt_str(o));
            let mut parts: Vec<String> = Vec::new();
            let mut i: usize = 0;
            while i < items.len()
                invariant
                    i <= items@.len(),
                    iv == items@.map_values(|o: Option<String>| opt_str(o)),
                    strs(parts@) == spec_trim_items(iv.take(i as int)),
                decreases items@.len() - i,
            {
                assert(iv.take(i + 1).drop_last() =~= iv.take(i as int));
                assert(iv.take(i + 1).last() == opt_str(items@[i as int]));
                match &items[i] {
                    Some(s) => {
                        let c = chars_of(s.as_str());
                        let t = trim_class(c.as_slice(), false);
                        if t.len() > 0 {
                            parts.push(string_of(t.as_slice()));
                            assert(strs(parts@) =~= spec_trim_items(iv.take(i + 1)));
                        }
                    },
                    None => {},
                }
                i += 1;
            }
            assert(iv.take(items@.len() as int) =~= iv);
            if parts.len() > 0 {
                parts
            } else {
                parse_name_scopes_raw(raw)
            }
        },
        ScopeJson::Text(inner) => {
            let c = chars_of(inner.as_str());
            let t = trim_class(c.as_slice(), false);
            if t.len() == 0 {
                let r: Vec<String> = Vec::new();
                assert(strs(r@) =~= Seq::<Seq<char>>::empty());
                r
            } else {
                let ts = string_of(t.as_slice());
                parse_name_scopes_raw(ts.as_str())
            }
        },
        _ => parse_name_scopes_raw(raw),
    }
}

/// Parses a raw scope string into its name parts.
///
/// Strategy (in order):
/// 1. Try JSON — if the result is a list, use its non-empty string items;
///    if a string, continue with that string.
/// 2. Split on `>`, `/`, or `::` (first separator found).
/// 3. Split on `.`.
/// 4. Return the whole string as a single-element list.
pub fn parse_name_scopes(raw: &str) -> (r: Vec<String>)
    ensures
        strs(r@) == spec_parse_name_scopes(raw@),
{
    let c = chars_of(raw);
    let t = trim_class(c.as_slice(), false);
    if t.len() == 0 {
        let r: Vec<String> = Vec::new();
        assert(strs(r@) =~= Seq::<Seq<char>>::empty());
        return r;
    }
    let ts = string_of(t.as_slice());
    let json = scope_json(ts.as_str());
    scopes_from_json(ts.as_str(), &json)
}

/// A clean scope part: non-empty, without leading or trailing whitespace.
pub open spec fn clean_part(p: Seq<char>) -> bool {
    p.len() > 0 && !spec_is_whitespace(p[0]) && !spec_is_whitespace(p.last())
}

proof fn lemma_trim_nonempty_clean(ps: Seq<Seq<char>>)
    ensures
        forall|i: int| 0 <= i < spec_trim_nonempty(ps).len() ==> clean_part(#[trigger] spec_trim_nonempty(ps)[i]),
    decreases ps.len(),
{
    if ps.len() > 0 {
        let prev = spec_trim_nonempty(ps.drop_last());
        lemma_trim_nonempty_clean(ps.drop_last());
        lemma_trim_ends(ps.last(), false);
        let r = spec_trim_nonempty(ps);
        assert forall|i: int| 0 <= i < r.len() implies clean_part(#[trigger] r[i]) by {
            if i < prev.len() {
                assert(r[i] == prev[i]);
            }
        }
    }
}

proof fn lemma_trim_items_clean(items: Seq<Option<Seq<char>>>)
    ensures
        forall|i: int| 0 <= i < spec_trim_items(items).len() ==> clean_part(#[trigger] spec_trim_items(items)[i]),
    decreases items.len(),
{
    if items.len() > 0 {
        let prev = spec_trim_items(items.drop_last());
        lemma_trim_items_clean(items.drop_last());
        if let Some(x) = items.last() {
            lemma_trim_ends(x, false);
        }
        let r = spec_trim_items(items);
        assert forall|i: int| 0 <= i < r.len() implies clean_part(#[trigger] r[i]) by {
            if i < prev.len() {
                assert(r[i] == prev[i]);
            }
        }
    }
}

proof fn lemma_parse_raw_clean(raw: Seq<char>)
    requires
        clean_part(raw),
    ensures
        forall|i: int| 0 <= i < spec_parse_raw(raw).len() ==> clean_part(#[trigger] spec_parse_raw(raw)[i]),
{
    lemma_trim_nonempty_clean(spec_split(raw, ">"@));
    lemma_trim_nonempty_clean(spec_split(raw, "/"@));
    lemma_trim_nonempty_clean(spec_split(raw, "::"@));
    lemma_trim_nonempty_clean(spec_split(raw, "."@));
}

/// Every name part of a scope string is non-empty and has no leading or
/// trailing whitespace.
pub proof fn lemma_scope_parts_clean(raw: Seq<char>)
    ensures
        forall|i: int| 0 <= i < spec_parse_name_scopes(raw).len() ==> clean_part(#[trigger] spec_parse_name_scopes(raw)[i]),
{
    let t = spec_trim(raw);
    lemma_trim_ends(raw, false);
    if t.len() > 0 {
        lemma_parse_raw_clean(t);
        match spec_scope_json(t) {
            ScopeJsonView::List(items) => {
                lemma_trim_items_clean(items);
            },
            ScopeJsonView::Text(inner) => {
                let u = spec_trim(inner);
                lemma_trim_ends(inner, false);
                if u.len() > 0 {
                    lemma_parse_raw_clean(u);
                }
            },
            _ => {},
        }
    }
}

} // verus!
