//! Assignment of ONNX nodes to conceptual layers.
//!
//! For each ONNX node the algorithm tries, in order:
//!  1. **Metadata-scope matching**: look for a torch name-scope in the node's
//!     `metadata_props`, parse it, and match it against layer aliases using the
//!     longest-prefix-wins rule.
//!  2. **Text heuristic matching**: try the node name, inputs, and outputs
//!     against the same prefix matcher and a set of keyword heuristics.
//!  3. **Unassigned fallback**: if nothing matched, assign to `"unassigned"`.

pub mod matched_via;

use vstd::prelude::*;
use crate::assoc::StrMap;
use crate::config::{LayerDef, LayerView, layers_view, strs};
use crate::onnx::{OnnxNode, NodeView, nodes_view};
use crate::scope::{opt_str, parse_name_scopes, spec_parse_name_scopes};
use crate::text::{
    chars_of, chars_eq, contains, ends_with, join, starts_with, string_of, to_lowercase,
    trim_class, spec_contains, spec_ends_with, spec_join, spec_starts_with, spec_to_lowercase,
    spec_trim_dots, lemma_trim_ends,
};

verus! {

// ─── Longest-prefix matching ────────────────────────────────────────────────

/// Returned by [`match_layer_by_prefix`] when a match is found.
pub struct PrefixMatch {
    pub layer_id: String,
    pub matched_prefix: String,
}

/// Whether the normalised alias `a` is a prefix of the normalised text `n`
/// at a `.` boundary (or the whole text).
pub open spec fn spec_alias_matches(n: Seq<char>, a: Seq<char>) -> bool {
    a.len() > 0 && (n == a || spec_starts_with(n, a + "."@))
}

/// The `(layer id, normalised alias)` pairs of one layer's aliases that
/// match `n`, in alias order.
pub open spec fn spec_layer_hits(n: Seq<char>, id: Seq<char>, aliases: Seq<Seq<char>>) -> Seq<
    (Seq<char>, Seq<char>),
>
    decreases aliases.len(),
{
    if aliases.len() == 0 {
        Seq::empty()
    } else {
        let rest = spec_layer_hits(n, id, aliases.drop_last());
        let a = spec_trim_dots(aliases.last());
        if spec_alias_matches(n, a) {
            rest.push((id, a))
        } else {
            rest
        }
    }
}

/// All matching `(layer id, normalised alias)` pairs, layer by layer.
pub open spec fn spec_prefix_hits(n: Seq<char>, defs: Seq<LayerView>) -> Seq<
    (Seq<char>, Seq<char>),
>
    decreases defs.len(),
{
    if defs.len() == 0 {
        Seq::empty()
    } else {
        spec_prefix_hits(n, defs.drop_last()) + spec_layer_hits(
            n,
            defs.last().id,
            defs.last().aliases,
        )
    }
}

/// The first of the hits whose alias is longest.
pub open spec fn spec_longest(hits: Seq<(Seq<char>, Seq<char>)>) -> Option<(Seq<char>, Seq<char>)>
    decreases hits.len(),
{
    if hits.len() == 0 {
        None
    } else {
        let h = hits.last();
        match spec_longest(hits.drop_last()) {
            None => Some(h),
            Some(b) => if h.1.len() > b.1.len() {
                Some(h)
            } else {
                Some(b)
            },
        }
    }
}

/// The layer matched by `text` (already lower-case): among the aliases that
/// are a `.`-boundary prefix of the text (both without leading and trailing
/// dots), the first longest one.
pub open spec fn spec_match_prefix(text: Seq<char>, defs: Seq<LayerView>) -> Option<
    (Seq<char>, Seq<char>),
> {
    let n = spec_trim_dots(text);
    if n.len() == 0 {
        None
    } else {
        spec_longest(spec_prefix_hits(n, defs))
    }
}

pub open spec fn prefix_match_view(m: Option<PrefixMatch>) -> Option<(Seq<char>, Seq<char>)> {
    match m {
        Some(p) => Some((p.layer_id@, p.matched_prefix@)),
        None => None,
    }
}

/// Whether `n` equals `a` or starts with `a.`.
fn alias_matches(n: &[char], a: &[char]) -> (r: bool)
    ensures
        r == spec_alias_matches(n@, a@),
{
    if a.len() == 0 {
        return false;
    }
    if chars_eq(n, a) {
        return true;
    }
    let mut a_dot: Vec<char> = Vec::new();
    let mut k: usize = 0;
    while k < a.len()
        invariant
            k <= a@.len(),
            a_dot@ == a@.take(k as int),
        decreases a@.len() - k,
    {
        a_dot.push(a[k]);
        k += 1;
        assert(a_dot@ =~= a@.take(k as int));
    }
    a_dot.push('.');
    proof {
        reveal_strlit(".");
        assert(a_dot@ =~= a@ + "."@);
    }
    starts_with(n, a_dot.as_slice())
}

/// Longest-prefix-wins layer lookup.  `text` should already be lowercase.
pub fn match_layer_by_prefix(text: &str, layer_defs: &[LayerDef]) -> (r: Option<PrefixMatch>)
    ensures
        prefix_match_view(r) == spec_match_prefix(text@, layers_view(layer_defs@)),
{
    let tc = chars_of(text);
    let n = trim_class(tc.as_slice(), true);
    if n.len() == 0 {
        return None;
    }
    let ghost lv = layers_view(layer_defs@);
    let mut best: Option<(usize, String, String)> = None;
    let ghost mut hits: Seq<(Seq<char>, Seq<char>)> = Seq::empty();
    let mut i: usize = 0;
    while i < layer_defs.len()
        invariant
            i <= layer_defs@.len(),
            lv == layers_view(layer_defs@),
            hits == spec_prefix_hits(n@, lv.take(i as int)),
            best_view(best) == spec_longest(hits),
            best matches Some(b) ==> b.0 == b.2@.len(),
        decreases layer_defs@.len() - i,
    {
        let layer = &layer_defs[i];
        let ghost base = hits;
        let mut j: usize = 0;
        while j < layer.aliases.len()
            invariant
                j <= layer.aliases@.len(),
                lv == layers_view(layer_defs@),
                i < layer_defs@.len(),
                layer == layer_defs@[i as int],
                hits == base + spec_layer_hits(n@, layer.id@, strs(layer.aliases@).take(j as int)),
                best_view(best) == spec_longest(hits),
                best matches Some(b) ==> b.0 == b.2@.len(),
            decreases layer.aliases@.len() - j,
        {
            let ac = chars_of(layer.aliases[j].as_str());
            let a = trim_class(ac.as_slice(), true);
            proof {
                let al = strs(layer.aliases@);
                assert(al.take(j + 1).drop_last() =~= al.take(j as int));
                assert(al.take(j + 1).last() == layer.aliases@[j as int]@);
            }
            if alias_matches(n.as_slice(), a.as_slice()) {
                let len = a.len();
                let replace = match &best {
                    None => true,
                    Some(b) => len > b.0,
                };
                proof {
                    let old_hits = hits;
                    hits = hits.push((layer.id@, a@));
                    assert(hits.drop_last() =~= old_hits);
                    assert(hits =~= base + spec_layer_hits(n@, layer.id@, strs(layer.aliases@).take(j + 1)));
                }
                if replace {
                    best = Some((len, layer.id.clone(), string_of(a.as_slice())));
                }
            } else {
                assert(hits =~= base + spec_layer_hits(n@, layer.id@, strs(layer.aliases@).take(j + 1)));
            }
            j += 1;
        }
        proof {
            assert(strs(layer.aliases@).take(layer.aliases@.len() as int) =~= strs(layer.aliases@));
            assert(lv.take(i + 1).drop_last() =~= lv.take(i as int));
            assert(lv.take(i + 1).last() == layer@);
        }
        i += 1;
    }
    assert(lv.take(layer_defs@.len() as int) =~= lv);
    match best {
        Some((_, layer_id, matched_prefix)) => Some(PrefixMatch { layer_id, matched_prefix }),
        None => None,
    }
}

pub open spec fn best_view(b: Option<(usize, String, String)>) -> Option<(Seq<char>, Seq<char>)> {
    match b {
        Some((_, id, a)) => Some((id@, a@)),
        None => None,
    }
}

/// Longest prefix wins: a match is one of the matching aliases, no matching
/// alias is longer, and every earlier matching alias is shorter; there is no
/// match exactly when no alias matches.
pub proof fn lemma_longest_prefix_wins(text: Seq<char>, defs: Seq<LayerView>)
    ensures
        ({
            let n = spec_trim_dots(text);
            let hits = spec_prefix_hits(n, defs);
            match spec_match_prefix(text, defs) {
                Some(m) => n.len() > 0 && exists|k: int|
                    0 <= k < hits.len() && hits[k] == m && spec_alias_matches(n, m.1) && (forall|
                        j: int,
                    |
                        0 <= j < hits.len() ==> (#[trigger] hits[j]).1.len() <= m.1.len()) && (
                    forall|j: int| 0 <= j < k ==> (#[trigger] hits[j]).1.len() < m.1.len()),
                None => n.len() == 0 || hits.len() == 0,
            }
        }),
{
    let n = spec_trim_dots(text);
    if n.len() > 0 {
        lemma_hits_match(n, defs);
        lemma_longest(spec_prefix_hits(n, defs));
    }
}

proof fn lemma_layer_hits_match(n: Seq<char>, id: Seq<char>, aliases: Seq<Seq<char>>)
    ensures
        forall|k: int|
            0 <= k < spec_layer_hits(n, id, aliases).len() ==> spec_alias_matches(
                n,
                (#[trigger] spec_layer_hits(n, id, aliases)[k]).1,
            ),
    decreases aliases.len(),
{
    if aliases.len() > 0 {
        lemma_layer_hits_match(n, id, aliases.drop_last());
        let rest = spec_layer_hits(n, id, aliases.drop_last());
        let a = spec_trim_dots(aliases.last());
        if spec_alias_matches(n, a) {
            assert forall|k: int| 0 <= k < rest.push((id, a)).len() implies spec_alias_matches(n, (#[trigger] rest.push((id, a))[k]).1) by {
                if k < rest.len() {
                    assert(rest.push((id, a))[k] == rest[k]);
                }
            }
        }
    }
}

proof fn lemma_hits_match(n: Seq<char>, defs: Seq<LayerView>)
    ensures
        forall|k: int|
            0 <= k < spec_prefix_hits(n, defs).len() ==> spec_alias_matches(
                n,
                (#[trigger] spec_prefix_hits(n, defs)[k]).1,
            ),
    decreases defs.len(),
{
    if defs.len() > 0 {
        lemma_hits_match(n, defs.drop_last());
        let a = spec_prefix_hits(n, defs.drop_last());
        let b = spec_layer_hits(n, defs.last().id, defs.last().aliases);
        lemma_layer_hits_match(n, defs.last().id, defs.last().aliases);
        assert forall|k: int| 0 <= k < (a + b).len() implies spec_alias_matches(n, (#[trigger] (a + b)[k]).1) by {
            if k < a.len() {
                assert((a + b)[k] == a[k]);
            } else {
                assert((a + b)[k] == b[k - a.len()]);
            }
        }
    }
}

proof fn lemma_longest(hits: Seq<(Seq<char>, Seq<char>)>)
    ensures
        match spec_longest(hits) {
            Some(m) => exists|k: int|
                0 <= k < hits.len() && hits[k] == m && (forall|j: int|
                    0 <= j < hits.len() ==> (#[trigger] hits[j]).1.len() <= m.1.len()) && (forall|
                    j: int,
                |
                    0 <= j < k ==> (#[trigger] hits[j]).1.len() < m.1.len()),
            None => hits.len() == 0,
        },
    decreases hits.len(),
{
    if hits.len() > 0 {
        let t = hits.drop_last();
        lemma_longest(t);
        let h = hits.last();
        match spec_longest(t) {
            None => {
                assert(hits[hits.len() - 1] == h);
            },
            Some(b) => {
                let k = choose|k: int|
                    0 <= k < t.len() && t[k] == b && (forall|j: int|
                        0 <= j < t.len() ==> (#[trigger] t[j]).1.len() <= b.1.len()) && (forall|
                        j: int,
                    |
                        0 <= j < k ==> (#[trigger] t[j]).1.len() < b.1.len());
                if h.1.len() > b.1.len() {
                    assert(hits[hits.len() - 1] == h);
                    assert forall|j: int| 0 <= j < hits.len() implies (#[trigger] hits[j]).1.len() <= h.1.len() by {
                        if j < t.len() {
                            assert(hits[j] == t[j]);
                        }
                    }
                    assert forall|j: int| 0 <= j < hits.len() - 1 implies (#[trigger] hits[j]).1.len() < h.1.len() by {
                        assert(hits[j] == t[j]);
                    }
                } else {
                    assert(hits[k] == b);
                    assert forall|j: int| 0 <= j < hits.len() implies (#[trigger] hits[j]).1.len() <= b.1.len() by {
                        if j < t.len() {
                            assert(hits[j] == t[j]);
                        }
                    }
                    assert forall|j: int| 0 <= j < k implies (#[trigger] hits[j]).1.len() < b.1.len() by {
                        assert(hits[j] == t[j]);
                    }
                }
            },
        }
    }
}


// ─── The layer-index regex ──────────────────────────────────────────────────

#[verifier::external_type_specification]
#[verifier::external_body]
pub struct ExRegex(regex::Regex);

#[verifier::external_type_specification]
#[verifier::external_body]
pub struct ExRegexError(regex::Error);

/// The pattern of encoder-block indices in node texts: `layer` between two
/// of `.`, `/`, `_` (or the text's ends) followed by digits.
pub const LAYER_INDEX_PATTERN: &'static str = r"(?:^|[./_])layer[./_](\d+)(?:$|[./_])";

/// Whether `regex::Regex::new` accepts the pattern.
pub uninterp spec fn spec_regex_compiles(pattern: Seq<char>) -> bool;

/// The text of capture group 1 of the leftmost-first match of the pattern
/// in the haystack (`Regex::captures`), if there is a match and the group
/// took part in it.
pub uninterp spec fn spec_regex_group1(pattern: Seq<char>, haystack: Seq<char>) -> Option<
    Seq<char>,
>;

/// A compiled regex together with its pattern.  Its view is the pattern.
pub struct LayerRegex {
    re: regex::Regex,
    pattern: String,
}

impl View for LayerRegex {
    type V = Seq<char>;

    closed spec fn view(&self) -> Seq<char> {
        self.pattern@
    }
}

/// `regex::Regex::new`: compiles the pattern; whether it succeeds is the
/// named function of the pattern, and the compiled regex keeps the pattern.
#[verifier::external_body]
fn regex_new(pattern: &str) -> (r: Result<LayerRegex, regex::Error>)
    ensures
        r is Ok <==> spec_regex_compiles(pattern@),
        r matches Ok(x) ==> x@ == pattern@,
{
    match regex::Regex::new(pattern) {
        Ok(re) => Ok(LayerRegex { re, pattern: pattern.to_string() }),
        Err(e) => Err(e),
    }
}

/// `regex::Regex::captures`, then capture group 1 (`Captures::get(1)`) as a
/// `String`: the named function of the pattern and the haystack.
#[verifier::external_body]
fn regex_group1(re: &LayerRegex, haystack: &str) -> (r: Option<String>)
    ensures
        opt_str(r) == spec_regex_group1(re@, haystack@),
{
    match re.re.captures(haystack) {
        Some(caps) => match caps.get(1) {
            Some(m) => Some(m.as_str().to_string()),
            None => None,
        },
        None => None,
    }
}

impl LayerRegex {
    /// Compiles `pattern`; `None` when the regex crate rejects it.
    pub fn new(pattern: &str) -> (r: Option<LayerRegex>)
        ensures
            r is Some <==> spec_regex_compiles(pattern@),
            r matches Some(x) ==> x@ == pattern@,
    {
        match regex_new(pattern) {
            Ok(x) => Some(x),
            Err(_) => None,
        }
    }

    /// Capture group 1 of the first match in `haystack`.
    pub fn group1(&self, haystack: &str) -> (r: Option<String>)
        ensures
            opt_str(r) == spec_regex_group1(self@, haystack@),
    {
        regex_group1(self, haystack)
    }
}

// ─── Text heuristics ────────────────────────────────────────────────────────

/// Intermediate result from a prefix or heuristic match.
pub struct MatchResult {
    pub layer_id: String,
    pub matched_prefix: Option<String>,
    pub matched_via: String,
}

pub struct MatchView {
    pub layer_id: Seq<char>,
    pub matched_prefix: Option<Seq<char>>,
    pub matched_via: Seq<char>,
}

impl View for MatchResult {
    type V = MatchView;

    open spec fn view(&self) -> MatchView {
        MatchView {
            layer_id: self.layer_id@,
            matched_prefix: opt_str(self.matched_prefix),
            matched_via: self.matched_via@,
        }
    }
}

pub open spec fn match_view(m: Option<MatchResult>) -> Option<MatchView> {
    match m {
        Some(x) => Some(x@),
        None => None,
    }
}

/// The id of the first layer whose id ends with `suffix`.
pub open spec fn spec_first_ending(defs: Seq<LayerView>, suffix: Seq<char>) -> Option<Seq<char>>
    decreases defs.len(),
{
    if defs.len() == 0 {
        None
    } else if spec_ends_with(defs[0].id, suffix) {
        Some(defs[0].id)
    } else {
        spec_first_ending(defs.drop_first(), suffix)
    }
}

/// The prefix and keyword heuristics for a lower-case text, in order: the
/// longest-prefix match; `embed` and a layer whose id ends with
/// `.embeddings`; `pool`; one of `classif`, `logits`, `label`, `pred`.
pub open spec fn spec_keyword_guess(lowered: Seq<char>, defs: Seq<LayerView>) -> Option<MatchView> {
    match spec_match_prefix(lowered, defs) {
        Some(p) => Some(
            MatchView {
                layer_id: p.0,
                matched_prefix: Some(p.1),
                matched_via: matched_via::PREFIX_TEXT@,
            },
        ),
        None => if spec_contains(lowered, "embed"@) && spec_first_ending(defs, ".embeddings"@) is Some {
            Some(
                MatchView {
                    layer_id: spec_first_ending(defs, ".embeddings"@)->0,
                    matched_prefix: Some("embed"@),
                    matched_via: matched_via::HEURISTIC_EMBEDDINGS@,
                },
            )
        } else if spec_contains(lowered, "pool"@) {
            Some(
                MatchView {
                    layer_id: "pooler"@,
                    matched_prefix: Some("pool"@),
                    matched_via: matched_via::HEURISTIC_POOLER@,
                },
            )
        } else if spec_contains(lowered, "classif"@) || spec_contains(lowered, "logits"@)
            || spec_contains(lowered, "label"@) || spec_contains(lowered, "pred"@) {
            Some(
                MatchView {
                    layer_id: "classifier"@,
                    matched_prefix: Some("classif"@),
                    matched_via: matched_via::HEURISTIC_CLASSIFIER@,
                },
            )
        } else {
            None
        },
    }
}

/// The encoder-block heuristic for a captured layer index `d`: the first
/// layer whose id ends with `.encoder.layer.<d>`.
pub open spec fn spec_index_guess(capture: Option<Seq<char>>, defs: Seq<LayerView>) -> Option<
    MatchView,
> {
    match capture {
        Some(d) => match spec_first_ending(defs, ".encoder.layer."@ + d) {
            Some(id) => Some(
                MatchView {
                    layer_id: id,
                    matched_prefix: Some("layer."@ + d),
                    matched_via: matched_via::HEURISTIC_LAYER_INDEX@,
                },
            ),
            None => None,
        },
        None => None,
    }
}

/// All heuristics for one text, with the layer-index regex `pattern` (none
/// when it could not be compiled): nothing for an empty text, else the
/// keyword heuristics on the lower-cased text, else the layer index the
/// regex captures in it.
pub open spec fn spec_guess(text: Seq<char>, defs: Seq<LayerView>, pattern: Option<Seq<char>>) -> Option<MatchView> {
    if text.len() == 0 {
        None
    } else {
        let l = spec_to_lowercase(text);
        match spec_keyword_guess(l, defs) {
            Some(m) => Some(m),
            None => match pattern {
                Some(p) => spec_index_guess(spec_regex_group1(p, l), defs),
                None => None,
            },
        }
    }
}

fn first_ending<'a>(layer_defs: &'a [LayerDef], suffix: &[char]) -> (r: Option<&'a LayerDef>)
    ensures
        match r {
            Some(d) => spec_first_ending(layers_view(layer_defs@), suffix@) == Some(d.id@),
            None => spec_first_ending(layers_view(layer_defs@), suffix@) is None,
        },
{
    let ghost lv = layers_view(layer_defs@);
    let mut i: usize = 0;
    assert(lv.skip(0) =~= lv);
    while i < layer_defs.len()
        invariant
            i <= layer_defs@.len(),
            lv == layers_view(layer_defs@),
            spec_first_ending(lv, suffix@) == spec_first_ending(lv.skip(i as int), suffix@),
        decreases layer_defs@.len() - i,
    {
        let idc = chars_of(layer_defs[i].id.as_str());
        assert(lv.skip(i as int)[0] == layer_defs@[i as int]@);
        assert(lv.skip(i as int).drop_first() =~= lv.skip(i + 1));
        if ends_with(idc.as_slice(), suffix) {
            return Some(&layer_defs[i]);
        }
        i += 1;
    }
    None
}

fn contains_str(text: &[char], pat: &str) -> (r: bool)
    ensures
        r == spec_contains(text@, pat@),
{
    let p = chars_of(pat);
    contains(text, p.as_slice())
}

/// The prefix and keyword heuristics for a lower-case text (see
/// [`spec_keyword_guess`]).
pub fn guess_layer_by_keywords(lowered: &str, layer_defs: &[LayerDef]) -> (r: Option<MatchResult>)
    ensures
        match_view(r) == spec_keyword_guess(lowered@, layers_view(layer_defs@)),
{
    if let Some(m) = match_layer_by_prefix(lowered, layer_defs) {
        return Some(
            MatchResult {
                layer_id: m.layer_id,
                matched_prefix: Some(m.matched_prefix),
                matched_via: String::from_str(matched_via::PREFIX_TEXT),
            },
        );
    }
    let l = chars_of(lowered);
    if contains_str(l.as_slice(), "embed") {
        let suffix = chars_of(".embeddings");
        if let Some(layer) = first_ending(layer_defs, suffix.as_slice()) {
            return Some(
                MatchResult {
                    layer_id: layer.id.clone(),
                    matched_prefix: Some(String::from_str("embed")),
                    matched_via: String::from_str(matched_via::HEURISTIC_EMBEDDINGS),
                },
            );
        }
    }
    if contains_str(l.as_slice(), "pool") {
        return Some(
            MatchResult {
                layer_id: String::from_str("pooler"),
                matched_prefix: Some(String::from_str("pool")),
                matched_via: String::from_str(matched_via::HEURISTIC_POOLER),
            },
        );
    }
    if contains_str(l.as_slice(), "classif") || contains_str(l.as_slice(), "logits")
        || contains_str(l.as_slice(), "label") || contains_str(l.as_slice(), "pred") {
        return Some(
            MatchResult {
                layer_id: String::from_str("classifier"),
                matched_prefix: Some(String::from_str("classif")),
                matched_via: String::from_str(matched_via::HEURISTIC_CLASSIFIER),
            },
        );
    }
    None
}

/// The encoder-block heuristic for a captured layer index (see
/// [`spec_index_guess`]).
pub fn layer_index_guess(capture: Option<String>, layer_defs: &[LayerDef]) -> (r: Option<MatchResult>)
    ensures
        match_view(r) == spec_index_guess(opt_str(capture), layers_view(layer_defs@)),
{
    match capture {
        Some(d) => {
            let mut suffix = chars_of(".encoder.layer.");
            let dc = chars_of(d.as_str());
            let ghost s0 = suffix@;
            let mut k: usize = 0;
            while k < dc.len()
                invariant
                    k <= dc@.len(),
                    suffix@ == s0 + dc@.take(k as int),
                decreases dc@.len() - k,
            {
                suffix.push(dc[k]);
                k += 1;
                assert(suffix@ =~= s0 + dc@.take(k as int));
            }
            assert(dc@.take(dc@.len() as int) =~= dc@);
            match first_ending(layer_defs, suffix.as_slice()) {
                Some(layer) => {
                    let mut prefix = String::from_str("layer.");
                    prefix.append(d.as_str());
                    Some(
                        MatchResult {
                            layer_id: layer.id.clone(),
                            matched_prefix: Some(prefix),
                            matched_via: String::from_str(matched_via::HEURISTIC_LAYER_INDEX),
                        },
                    )
                },
                None => None,
            }
        },
        None => None,
    }
}

fn guess_with(text: &str, layer_defs: &[LayerDef], layer_idx_re: Option<&LayerRegex>) -> (r: Option<MatchResult>)
    ensures
        match_view(r) == spec_guess(
            text@,
            layers_view(layer_defs@),
            match layer_idx_re {
                Some(x) => Some(x@),
                None => None,
            },
        ),
{
    if text.is_empty() {
        return None;
    }
    let lowered = to_lowercase(text);
    match guess_layer_by_keywords(lowered.as_str(), layer_defs) {
        Some(m) => Some(m),
        None => match layer_idx_re {
            Some(re) => layer_index_guess(re.group1(lowered.as_str()), layer_defs),
            None => None,
        },
    }
}

/// Tries all heuristics to match a single text to a layer (see
/// [`spec_guess`]).
pub fn guess_layer_from_text(text: &str, layer_defs: &[LayerDef], layer_idx_re: &LayerRegex) -> (r:
    Option<MatchResult>)
    ensures
        match_view(r) == spec_guess(text@, layers_view(layer_defs@), Some(layer_idx_re@)),
{
    guess_with(text, layer_defs, Some(layer_idx_re))
}


// ─── Scopes from node metadata ──────────────────────────────────────────────

/// The scope of a raw metadata value: its name parts joined with `.`,
/// without leading and trailing dots; none when that is empty.
pub open spec fn spec_scope_from_raw(raw: Seq<char>) -> Option<Seq<char>> {
    let parts = spec_parse_name_scopes(raw);
    if parts.len() == 0 {
        None
    } else {
        let t = spec_trim_dots(spec_join(parts, "."@));
        if t.len() == 0 {
            None
        } else {
            Some(t)
        }
    }
}

pub open spec fn spec_scope_for_key(props: Map<Seq<char>, Seq<char>>, key: Seq<char>) -> Option<Seq<char>> {
    if props.contains_key(key) && props[key].len() > 0 {
        spec_scope_from_raw(props[key])
    } else {
        None
    }
}

/// The canonical scope of a node: the first scope found under the keys
/// `pkg.torch.onnx.name_scopes`, `pkg.torch.onnx.scope`, `namespace`,
/// `scope` of its metadata.
pub open spec fn spec_canonical_scope(props: Map<Seq<char>, Seq<char>>) -> Option<Seq<char>> {
    match spec_scope_for_key(props, "pkg.torch.onnx.name_scopes"@) {
        Some(s) => Some(s),
        None => match spec_scope_for_key(props, "pkg.torch.onnx.scope"@) {
            Some(s) => Some(s),
            None => match spec_scope_for_key(props, "namespace"@) {
                Some(s) => Some(s),
                None => spec_scope_for_key(props, "scope"@),
            },
        },
    }
}

/// A canonical scope is never empty and neither starts nor ends with `.`.
pub proof fn lemma_canonical_scope_trimmed(props: Map<Seq<char>, Seq<char>>)
    ensures
        spec_canonical_scope(props) matches Some(s) ==> s.len() > 0 && s[0] != '.' && s.last() != '.',
{
    let keys = seq![
        "pkg.torch.onnx.name_scopes"@,
        "pkg.torch.onnx.scope"@,
        "namespace"@,
        "scope"@,
    ];
    assert forall|i: int| 0 <= i < 4 implies (spec_scope_for_key(props, #[trigger] keys[i]) matches Some(s)
        ==> s.len() > 0 && s[0] != '.' && s.last() != '.') by {
        let k = keys[i];
        if props.contains_key(k) && props[k].len() > 0 {
            lemma_trim_ends(spec_join(spec_parse_name_scopes(props[k]), "."@), true);
        }
    }
    assert(keys[0] == "pkg.torch.onnx.name_scopes"@);
    assert(keys[1] == "pkg.torch.onnx.scope"@);
    assert(keys[2] == "namespace"@);
    assert(keys[3] == "scope"@);
}

fn scope_for_key(props: &StrMap<String>, key: &str) -> (r: Option<String>)
    ensures
        opt_str(r) == spec_scope_for_key(props@, key@),
{
    match props.get(key) {
        None => None,
        Some(raw) => {
            if raw.as_str().is_empty() {
                return None;
            }
            let parts = parse_name_scopes(raw.as_str());
            if parts.len() == 0 {
                return None;
            }
            let mut pc: Vec<Vec<char>> = Vec::new();
            let mut i: usize = 0;
            while i < parts.len()
                invariant
                    i <= parts@.len(),
                    pc@.len() == i,
                    forall|k: int| 0 <= k < i ==> #[trigger] pc@[k]@ == parts@[k]@,
                decreases parts@.len() - i,
            {
                pc.push(chars_of(parts[i].as_str()));
                i += 1;
            }
            assert(pc@.map_values(|p: Vec<char>| p@) =~= strs(parts@));
            let dot = chars_of(".");
            let joined = join(&pc, dot.as_slice());
            let t = trim_class(joined.as_slice(), true);
            if t.len() == 0 {
                None
            } else {
                Some(string_of(t.as_slice()))
            }
        },
    }
}

/// Extracts the canonical scope string from a node's metadata_props (see
/// [`spec_canonical_scope`]).
pub fn canonical_scope(node: &OnnxNode) -> (r: Option<String>)
    ensures
        opt_str(r) == spec_canonical_scope(node@.metadata_props),
{
    if let Some(s) = scope_for_key(&node.metadata_props, "pkg.torch.onnx.name_scopes") {
        return Some(s);
    }
    if let Some(s) = scope_for_key(&node.metadata_props, "pkg.torch.onnx.scope") {
        return Some(s);
    }
    if let Some(s) = scope_for_key(&node.metadata_props, "namespace") {
        return Some(s);
    }
    scope_for_key(&node.metadata_props, "scope")
}

// ─── Assignment ─────────────────────────────────────────────────────────────

/// The result of assigning a single ONNX node to a conceptual layer.
pub struct NodeAssignment {
    pub layer_id: String,
    /// Canonical scope string extracted from node metadata (may be `None`).
    pub scope: Option<String>,
    /// The alias or keyword that caused the match (may be `None` for unassigned).
    pub matched_prefix: Option<String>,
    /// How the match was made (see [`matched_via`]).
    pub matched_via: String,
}

pub struct AssignmentView {
    pub layer_id: Seq<char>,
    pub scope: Option<Seq<char>>,
    pub matched_prefix: Option<Seq<char>>,
    pub matched_via: Seq<char>,
}

impl View for NodeAssignment {
    type V = AssignmentView;

    open spec fn view(&self) -> AssignmentView {
        AssignmentView {
            layer_id: self.layer_id@,
            scope: opt_str(self.scope),
            matched_prefix: opt_str(self.matched_prefix),
            matched_via: self.matched_via@,
        }
    }
}

/// Result returned by [`assign_nodes_to_layers`].
pub struct AssignmentResult {
    /// The assignment of each node, by node id.
    pub assignments: StrMap<NodeAssignment>,
    /// The ids of the nodes that matched no layer, in node order.
    pub unmatched_nodes: Vec<String>,
}

/// The texts tried for a node: its name, then its inputs, then its outputs.
pub open spec fn spec_node_texts(node: NodeView) -> Seq<Seq<char>> {
    seq![node.name] + node.inputs + node.outputs
}

/// The first text that some heuristic matches.
pub open spec fn spec_first_guess(texts: Seq<Seq<char>>, defs: Seq<LayerView>, pattern: Option<Seq<char>>) -> Option<MatchView>
    decreases texts.len(),
{
    if texts.len() == 0 {
        None
    } else {
        match spec_guess(texts[0], defs, pattern) {
            Some(m) => Some(m),
            None => spec_first_guess(texts.drop_first(), defs, pattern),
        }
    }
}

/// The longest-prefix match of a lower-cased scope.
pub open spec fn spec_scope_match(scope: Option<Seq<char>>, defs: Seq<LayerView>) -> Option<MatchView> {
    match scope {
        Some(s) => match spec_match_prefix(spec_to_lowercase(s), defs) {
            Some(p) => Some(
                MatchView {
                    layer_id: p.0,
                    matched_prefix: Some(p.1),
                    matched_via: matched_via::METADATA_SCOPE@,
                },
            ),
            None => None,
        },
        None => None,
    }
}

/// How a node matches a layer: by its metadata scope, else by the first of
/// its texts that a heuristic matches.
pub open spec fn spec_node_match(node: NodeView, defs: Seq<LayerView>, pattern: Option<Seq<char>>) -> Option<MatchView> {
    match spec_scope_match(spec_canonical_scope(node.metadata_props), defs) {
        Some(m) => Some(m),
        None => spec_first_guess(spec_node_texts(node), defs, pattern),
    }
}

/// The assignment of a node: its match, or `unassigned` / `unmatched`.
pub open spec fn spec_node_assignment(node: NodeView, defs: Seq<LayerView>, pattern: Option<Seq<char>>) -> AssignmentView {
    let scope = spec_canonical_scope(node.metadata_props);
    match spec_node_match(node, defs, pattern) {
        Some(m) => AssignmentView {
            layer_id: m.layer_id,
            scope,
            matched_prefix: m.matched_prefix,
            matched_via: m.matched_via,
        },
        None => AssignmentView {
            layer_id: "unassigned"@,
            scope,
            matched_prefix: None,
            matched_via: matched_via::UNMATCHED@,
        },
    }
}

/// The assignments by node id; a later node with the same id replaces an
/// earlier one.
pub open spec fn spec_assignments(nodes: Seq<NodeView>, defs: Seq<LayerView>, pattern: Option<Seq<char>>) -> Map<Seq<char>, AssignmentView>
    decreases nodes.len(),
{
    if nodes.len() == 0 {
        Map::empty()
    } else {
        spec_assignments(nodes.drop_last(), defs, pattern).insert(
            nodes.last().id,
            spec_node_assignment(nodes.last(), defs, pattern),
        )
    }
}

/// The ids of the nodes that match no layer, in node order.
pub open spec fn spec_unmatched(nodes: Seq<NodeView>, defs: Seq<LayerView>, pattern: Option<Seq<char>>) -> Seq<Seq<char>>
    decreases nodes.len(),
{
    if nodes.len() == 0 {
        Seq::empty()
    } else if spec_node_match(nodes.last(), defs, pattern) is None {
        spec_unmatched(nodes.drop_last(), defs, pattern).push(nodes.last().id)
    } else {
        spec_unmatched(nodes.drop_last(), defs, pattern)
    }
}

/// The layer-index pattern, when the regex crate compiles it.
pub open spec fn spec_layer_index_regex() -> Option<Seq<char>> {
    if spec_regex_compiles(LAYER_INDEX_PATTERN@) {
        Some(LAYER_INDEX_PATTERN@)
    } else {
        None
    }
}

fn first_guess(texts: &Vec<String>, layer_defs: &[LayerDef], re: Option<&LayerRegex>) -> (r: Option<MatchResult>)
    ensures
        match_view(r) == spec_first_guess(strs(texts@), layers_view(layer_defs@), match re {
            Some(x) => Some(x@),
            None => None,
        }),
{
    let ghost pat = match re {
        Some(x) => Some(x@),
        None => None,
    };
    let ghost tv = strs(texts@);
    let mut i: usize = 0;
    assert(tv.skip(0) =~= tv);
    while i < texts.len()
        invariant
            i <= texts@.len(),
            tv == strs(texts@),
            pat == match re {
                Some(x) => Some(x@),
                None => None,
            },
            spec_first_guess(tv, layers_view(layer_defs@), pat) == spec_first_guess(tv.skip(i as int), layers_view(layer_defs@), pat),
        decreases texts@.len() - i,
    {
        assert(tv.skip(i as int)[0] == texts@[i as int]@);
        assert(tv.skip(i as int).drop_first() =~= tv.skip(i + 1));
        let g = guess_with(texts[i].as_str(), layer_defs, re);
        if g.is_some() {
            return g;
        }
        i += 1;
    }
    None
}

fn node_texts(node: &OnnxNode) -> (r: Vec<String>)
    ensures
        strs(r@) == spec_node_texts(node@),
{
    let mut r: Vec<String> = Vec::new();
    r.push(node.name.clone());
    let ni = node.inputs.len();
    let mut i: usize = 0;
    while i < ni
        invariant
            ni == node.inputs@.len(),
            i <= ni,
            r@.len() == 1 + i,
            r@[0]@ == node.name@,
            forall|k: int| 0 <= k < i ==> #[trigger] r@[k + 1]@ == node.inputs@[k]@,
        decreases ni - i,
    {
        r.push(node.inputs[i].clone());
        i += 1;
    }
    let mut j: usize = 0;
    while j < node.outputs.len()
        invariant
            j <= node.outputs@.len(),
            r@.len() == 1 + ni + j,
            r@[0]@ == node.name@,
            forall|k: int| 0 <= k < ni ==> #[trigger] r@[k + 1]@ == node.inputs@[k]@,
            forall|k: int| 0 <= k < j ==> #[trigger] r@[k + 1 + ni]@ == node.outputs@[k]@,
        decreases node.outputs@.len() - j,
    {
        r.push(node.outputs[j].clone());
        j += 1;
    }
    proof {
        let t = spec_node_texts(node@);
        assert forall|k: int| 0 <= k < r@.len() implies #[trigger] strs(r@)[k] == t[k] by {
            if 1 <= k < 1 + ni {
                assert(r@[(k - 1) + 1]@ == node.inputs@[k - 1]@);
            } else if k >= 1 + ni {
                assert(r@[(k - 1 - ni) + 1 + ni]@ == node.outputs@[k - 1 - ni]@);
            }
        }
        assert(strs(r@) =~= t);
    }
    r
}

fn assign_node(node: &OnnxNode, layer_defs: &[LayerDef], re: Option<&LayerRegex>) -> (r: (NodeAssignment, bool))
    ensures
        r.0@ == spec_node_assignment(node@, layers_view(layer_defs@), match re {
            Some(x) => Some(x@),
            None => None,
        }),
        r.1 == spec_node_match(node@, layers_view(layer_defs@), match re {
            Some(x) => Some(x@),
            None => None,
        }) is Some,
{
    let scope = canonical_scope(node);
    let mut matched: Option<MatchResult> = None;
    if let Some(scope_str) = &scope {
        let lower = to_lowercase(scope_str.as_str());
        if let Some(m) = match_layer_by_prefix(lower.as_str(), layer_defs) {
            matched = Some(
                MatchResult {
                    layer_id: m.layer_id,
                    matched_prefix: Some(m.matched_prefix),
                    matched_via: String::from_str(matched_via::METADATA_SCOPE),
                },
            );
        }
    }
    if matched.is_none() {
        let texts = node_texts(node);
        matched = first_guess(&texts, layer_defs, re);
    }
    match matched {
        Some(m) => (
            NodeAssignment {
                layer_id: m.layer_id,
                scope,
                matched_prefix: m.matched_prefix,
                matched_via: m.matched_via,
            },
            true,
        ),
        None => (
            NodeAssignment {
                layer_id: String::from_str("unassigned"),
                scope,
                matched_prefix: None,
                matched_via: String::from_str(matched_via::UNMATCHED),
            },
            false,
        ),
    }
}

fn assign_with(onnx_nodes: &[OnnxNode], layer_defs: &[LayerDef], re: Option<&LayerRegex>) -> (r: AssignmentResult)
    ensures
        r.assignments@ == spec_assignments(nodes_view(onnx_nodes@), layers_view(layer_defs@), match re {
            Some(x) => Some(x@),
            None => None,
        }),
        strs(r.unmatched_nodes@) == spec_unmatched(nodes_view(onnx_nodes@), layers_view(layer_defs@), match re {
            Some(x) => Some(x@),
            None => None,
        }),
{
    let ghost pat = match re {
        Some(x) => Some(x@),
        None => None,
    };
    let ghost nv = nodes_view(onnx_nodes@);
    let ghost lv = layers_view(layer_defs@);
    let mut assignments: StrMap<NodeAssignment> = StrMap::new();
    let mut unmatched_nodes: Vec<String> = Vec::new();
    let mut i: usize = 0;
    while i < onnx_nodes.len()
        invariant
            i <= onnx_nodes@.len(),
            nv == nodes_view(onnx_nodes@),
            lv == layers_view(layer_defs@),
            pat == match re {
                Some(x) => Some(x@),
                None => None,
            },
            assignments@ == spec_assignments(nv.take(i as int), lv, pat),
            strs(unmatched_nodes@) == spec_unmatched(nv.take(i as int), lv, pat),
        decreases onnx_nodes@.len() - i,
    {
        let node = &onnx_nodes[i];
        proof {
            assert(nv.take(i + 1).drop_last() =~= nv.take(i as int));
            assert(nv.take(i + 1).last() == node@);
        }
        let (a, hit) = assign_node(node, layer_defs, re);
        if !hit {
            unmatched_nodes.push(node.id.clone());
            assert(strs(unmatched_nodes@) =~= spec_unmatched(nv.take(i + 1), lv, pat));
        }
        assignments.insert(node.id.clone(), a);
        i += 1;
    }
    assert(nv.take(onnx_nodes@.len() as int) =~= nv);
    AssignmentResult { assignments, unmatched_nodes }
}

/// Assigns every node to a conceptual layer, using `layer_idx_re` for the
/// encoder-block heuristic.
pub fn assign_nodes_with_regex(onnx_nodes: &[OnnxNode], layer_defs: &[LayerDef], layer_idx_re: &LayerRegex) -> (r: AssignmentResult)
    ensures
        r.assignments@ == spec_assignments(nodes_view(onnx_nodes@), layers_view(layer_defs@), Some(layer_idx_re@)),
        strs(r.unmatched_nodes@) == spec_unmatched(nodes_view(onnx_nodes@), layers_view(layer_defs@), Some(layer_idx_re@)),
{
    assign_with(onnx_nodes, layer_defs, Some(layer_idx_re))
}

/// Assigns every node in `onnx_nodes` to a conceptual layer from
/// `layer_defs`, with the layer-index regex [`LAYER_INDEX_PATTERN`].
pub fn assign_nodes_to_layers(onnx_nodes: &[OnnxNode], layer_defs: &[LayerDef]) -> (r: AssignmentResult)
    ensures
        r.assignments@ == spec_assignments(nodes_view(onnx_nodes@), layers_view(layer_defs@), spec_layer_index_regex()),
        strs(r.unmatched_nodes@) == spec_unmatched(nodes_view(onnx_nodes@), layers_view(layer_defs@), spec_layer_index_regex()),
{
    match LayerRegex::new(LAYER_INDEX_PATTERN) {
        Some(re) => assign_with(onnx_nodes, layer_defs, Some(&re)),
        None => assign_with(onnx_nodes, layer_defs, None),
    }
}


/// The node ids.
pub open spec fn spec_node_ids(nodes: Seq<NodeView>) -> Seq<Seq<char>> {
    nodes.map_values(|n: NodeView| n.id)
}

/// Every node has an assignment, and nothing else has: the assignments are
/// keyed by exactly the node ids.
pub proof fn lemma_assignments_cover_nodes(nodes: Seq<NodeView>, defs: Seq<LayerView>, pattern: Option<Seq<char>>)
    ensures
        spec_assignments(nodes, defs, pattern).dom() == spec_node_ids(nodes).to_set(),
    decreases nodes.len(),
{
    if nodes.len() > 0 {
        lemma_assignments_cover_nodes(nodes.drop_last(), defs, pattern);
        let ids = spec_node_ids(nodes);
        let prev = spec_node_ids(nodes.drop_last());
        assert(ids =~= prev.push(nodes.last().id));
        assert(spec_assignments(nodes, defs, pattern).dom() =~= ids.to_set()) by {
            assert forall|k: Seq<char>| ids.to_set().contains(k) <==> (prev.to_set().contains(k) || k == nodes.last().id) by {
                if ids.contains(k) {
                    let j = choose|j: int| 0 <= j < ids.len() && ids[j] == k;
                    if j < prev.len() {
                        assert(prev[j] == k);
                    }
                }
                if prev.contains(k) {
                    let j = choose|j: int| 0 <= j < prev.len() && prev[j] == k;
                    assert(ids[j] == k);
                }
                if k == nodes.last().id {
                    assert(ids[ids.len() - 1] == k);
                }
            }
        }
    } else {
        assert(spec_node_ids(nodes).to_set() =~= Set::<Seq<char>>::empty());
    }
}

/// With distinct node ids, each node's assignment is the one computed for
/// it, there are as many assignments as nodes, and the unmatched ids are
/// those of the nodes without a match, each assigned to `unassigned`.
pub proof fn lemma_assignments_per_node(nodes: Seq<NodeView>, defs: Seq<LayerView>, pattern: Option<Seq<char>>)
    requires
        spec_node_ids(nodes).no_duplicates(),
    ensures
        forall|i: int| 0 <= i < nodes.len() ==> spec_assignments(nodes, defs, pattern)[#[trigger] nodes[i].id]
            == spec_node_assignment(nodes[i], defs, pattern),
        spec_assignments(nodes, defs, pattern).dom().len() == nodes.len(),
        forall|k: int| 0 <= k < spec_unmatched(nodes, defs, pattern).len() ==> exists|i: int|
            0 <= i < nodes.len() && nodes[i].id == #[trigger] spec_unmatched(nodes, defs, pattern)[k]
                && spec_node_match(nodes[i], defs, pattern) is None
                && spec_assignments(nodes, defs, pattern)[nodes[i].id].layer_id == "unassigned"@,
    decreases nodes.len(),
{
    lemma_assignments_cover_nodes(nodes, defs, pattern);
    spec_node_ids(nodes).unique_seq_to_set();
    if nodes.len() > 0 {
        let t = nodes.drop_last();
        assert(spec_node_ids(t) =~= spec_node_ids(nodes).drop_last());
        assert(spec_node_ids(t).no_duplicates()) by {
            assert forall|a: int, b: int| 0 <= a < t.len() && 0 <= b < t.len() && a != b implies spec_node_ids(t)[a] != spec_node_ids(t)[b] by {
                assert(spec_node_ids(nodes)[a] != spec_node_ids(nodes)[b]);
            }
        }
        lemma_assignments_per_node(t, defs, pattern);
        let last = nodes.last();
        assert forall|i: int| 0 <= i < nodes.len() implies spec_assignments(nodes, defs, pattern)[#[trigger] nodes[i].id]
            == spec_node_assignment(nodes[i], defs, pattern) by {
            if i < nodes.len() - 1 {
                assert(nodes[i] == t[i]);
                assert(spec_node_ids(nodes)[i] != spec_node_ids(nodes)[nodes.len() - 1]);
            }
        }
        let u = spec_unmatched(nodes, defs, pattern);
        let ut = spec_unmatched(t, defs, pattern);
        assert forall|k: int| 0 <= k < u.len() implies exists|i: int|
            0 <= i < nodes.len() && nodes[i].id == #[trigger] u[k]
                && spec_node_match(nodes[i], defs, pattern) is None
                && spec_assignments(nodes, defs, pattern)[nodes[i].id].layer_id == "unassigned"@ by {
            if k < ut.len() {
                assert(u[k] == ut[k]);
                let i = choose|i: int|
                    0 <= i < t.len() && t[i].id == #[trigger] ut[k]
                        && spec_node_match(t[i], defs, pattern) is None
                        && spec_assignments(t, defs, pattern)[t[i].id].layer_id == "unassigned"@;
                assert(nodes[i] == t[i]);
                assert(spec_assignments(nodes, defs, pattern)[nodes[i].id] == spec_node_assignment(nodes[i], defs, pattern));
            } else {
                let i = nodes.len() - 1;
                assert(nodes[i] == last);
                assert(spec_assignments(nodes, defs, pattern)[nodes[i].id] == spec_node_assignment(nodes[i], defs, pattern));
            }
        }
    }
}

proof fn lemma_first_guess(t: Seq<Seq<char>>, defs: Seq<LayerView>, pattern: Option<Seq<char>>)
    ensures
        forall|k: int|
            0 <= k < t.len() && spec_guess(t[k], defs, pattern) is Some && (forall|j: int|
                0 <= j < k ==> (#[trigger] spec_guess(t[j], defs, pattern)) is None)
                ==> spec_first_guess(t, defs, pattern) == #[trigger] spec_guess(t[k], defs, pattern),
        (forall|k: int| 0 <= k < t.len() ==> (#[trigger] spec_guess(t[k], defs, pattern)) is None)
            ==> spec_first_guess(t, defs, pattern) is None,
    decreases t.len(),
{
    if t.len() > 0 {
        let r = t.drop_first();
        lemma_first_guess(r, defs, pattern);
        assert forall|k: int|
            0 <= k < t.len() && spec_guess(t[k], defs, pattern) is Some && (forall|j: int|
                0 <= j < k ==> (#[trigger] spec_guess(t[j], defs, pattern)) is None)
                implies spec_first_guess(t, defs, pattern) == #[trigger] spec_guess(t[k], defs, pattern) by {
            if k > 0 {
                assert(spec_guess(t[0], defs, pattern) is None);
                assert(r[k - 1] == t[k]);
                assert forall|j: int| 0 <= j < k - 1 implies (#[trigger] spec_guess(r[j], defs, pattern)) is None by {
                    assert(r[j] == t[j + 1]);
                    assert(spec_guess(t[j + 1], defs, pattern) is None);
                }
            }
        }
        if forall|k: int| 0 <= k < t.len() ==> (#[trigger] spec_guess(t[k], defs, pattern)) is None {
            assert(spec_guess(t[0], defs, pattern) is None);
            assert forall|k: int| 0 <= k < r.len() implies (#[trigger] spec_guess(r[k], defs, pattern)) is None by {
                assert(r[k] == t[k + 1]);
                assert(spec_guess(t[k + 1], defs, pattern) is None);
            }
        }
    }
}

/// A node's metadata scope decides its match when it matches a layer.
/// Otherwise its texts are tried in order: its name, then its inputs in
/// order, then its outputs in order; the first text that the heuristics
/// match gives the node's match, and a node none of whose texts match has
/// no match.
pub proof fn lemma_texts_tried_in_order(node: NodeView, defs: Seq<LayerView>, pattern: Option<Seq<char>>)
    ensures
        spec_scope_match(spec_canonical_scope(node.metadata_props), defs) is Some ==> spec_node_match(
            node,
            defs,
            pattern,
        ) == spec_scope_match(spec_canonical_scope(node.metadata_props), defs),
        spec_scope_match(spec_canonical_scope(node.metadata_props), defs) is None ==> {
            &&& spec_guess(node.name, defs, pattern) is Some ==> spec_node_match(node, defs, pattern)
                == spec_guess(node.name, defs, pattern)
            &&& forall|k: int|
                0 <= k < node.inputs.len() && spec_guess(node.name, defs, pattern) is None
                    && spec_guess(node.inputs[k], defs, pattern) is Some && (forall|j: int|
                    0 <= j < k ==> (#[trigger] spec_guess(node.inputs[j], defs, pattern)) is None)
                    ==> spec_node_match(node, defs, pattern) == #[trigger] spec_guess(node.inputs[k], defs, pattern)
            &&& forall|k: int|
                0 <= k < node.outputs.len() && spec_guess(node.name, defs, pattern) is None
                    && (forall|j: int| 0 <= j < node.inputs.len() ==> (#[trigger] spec_guess(node.inputs[j], defs, pattern)) is None)
                    && spec_guess(node.outputs[k], defs, pattern) is Some && (forall|j: int|
                    0 <= j < k ==> (#[trigger] spec_guess(node.outputs[j], defs, pattern)) is None)
                    ==> spec_node_match(node, defs, pattern) == #[trigger] spec_guess(node.outputs[k], defs, pattern)
            &&& (spec_guess(node.name, defs, pattern) is None
                && (forall|j: int| 0 <= j < node.inputs.len() ==> (#[trigger] spec_guess(node.inputs[j], defs, pattern)) is None)
                && (forall|j: int| 0 <= j < node.outputs.len() ==> (#[trigger] spec_guess(node.outputs[j], defs, pattern)) is None))
                ==> spec_node_match(node, defs, pattern) is None
        },
{
    let t = spec_node_texts(node);
    let ni = node.inputs.len() as int;
    let no = node.outputs.len() as int;
    lemma_first_guess(t, defs, pattern);
    assert(t.len() == 1 + ni + no);
    assert(t[0] == node.name);
    assert forall|k: int| 0 <= k < ni implies t[1 + k] == #[trigger] node.inputs[k] by {}
    assert forall|k: int| 0 <= k < no implies t[1 + ni + k] == #[trigger] node.outputs[k] by {}
    if spec_scope_match(spec_canonical_scope(node.metadata_props), defs) is None {
        if spec_guess(node.name, defs, pattern) is Some {
            assert(spec_guess(t[0], defs, pattern) is Some);
        }
        assert forall|k: int|
            0 <= k < ni && spec_guess(node.name, defs, pattern) is None
                && spec_guess(node.inputs[k], defs, pattern) is Some && (forall|j: int|
                0 <= j < k ==> (#[trigger] spec_guess(node.inputs[j], defs, pattern)) is None)
                implies spec_node_match(node, defs, pattern) == #[trigger] spec_guess(node.inputs[k], defs, pattern) by {
            assert(t[1 + k] == node.inputs[k]);
            assert forall|j: int| 0 <= j < 1 + k implies (#[trigger] spec_guess(t[j], defs, pattern)) is None by {
                if j > 0 {
                    assert(t[j] == node.inputs[j - 1]);
                    assert(spec_guess(node.inputs[j - 1], defs, pattern) is None);
                }
            }
            assert(spec_guess(t[1 + k], defs, pattern) is Some);
        }
        assert forall|k: int|
            0 <= k < no && spec_guess(node.name, defs, pattern) is None
                && (forall|j: int| 0 <= j < ni ==> (#[trigger] spec_guess(node.inputs[j], defs, pattern)) is None)
                && spec_guess(node.outputs[k], defs, pattern) is Some && (forall|j: int|
                0 <= j < k ==> (#[trigger] spec_guess(node.outputs[j], defs, pattern)) is None)
                implies spec_node_match(node, defs, pattern) == #[trigger] spec_guess(node.outputs[k], defs, pattern) by {
            assert(t[1 + ni + k] == node.outputs[k]);
            assert forall|j: int| 0 <= j < 1 + ni + k implies (#[trigger] spec_guess(t[j], defs, pattern)) is None by {
                if 1 <= j < 1 + ni {
                    assert(t[j] == node.inputs[j - 1]);
                    assert(spec_guess(node.inputs[j - 1], defs, pattern) is None);
                } else if j >= 1 + ni {
                    assert(t[j] == node.outputs[j - 1 - ni]);
                    assert(spec_guess(node.outputs[j - 1 - ni], defs, pattern) is None);
                }
            }
            assert(spec_guess(t[1 + ni + k], defs, pattern) is Some);
        }
        if spec_guess(node.name, defs, pattern) is None
            && (forall|j: int| 0 <= j < ni ==> (#[trigger] spec_guess(node.inputs[j], defs, pattern)) is None)
            && (forall|j: int| 0 <= j < no ==> (#[trigger] spec_guess(node.outputs[j], defs, pattern)) is None) {
            assert forall|j: int| 0 <= j < t.len() implies (#[trigger] spec_guess(t[j], defs, pattern)) is None by {
                if 1 <= j < 1 + ni {
                    assert(t[j] == node.inputs[j - 1]);
                    assert(spec_guess(node.inputs[j - 1], defs, pattern) is None);
                } else if j >= 1 + ni {
                    assert(t[j] == node.outputs[j - 1 - ni]);
                    assert(spec_guess(node.outputs[j - 1 - ni], defs, pattern) is None);
                }
            }
        }
    }
}

/// A node's assignment takes the layer, matched prefix and way of its
/// match; a node without a match is assigned to `unassigned` with no
/// prefix, as unmatched.  Its scope is its canonical scope either way.
pub proof fn lemma_assignment_from_match(node: NodeView, defs: Seq<LayerView>, pattern: Option<Seq<char>>)
    ensures
        spec_node_assignment(node, defs, pattern).scope == spec_canonical_scope(node.metadata_props),
        spec_node_match(node, defs, pattern) matches Some(m) ==> spec_node_assignment(node, defs, pattern).layer_id == m.layer_id
            && spec_node_assignment(node, defs, pattern).matched_prefix == m.matched_prefix
            && spec_node_assignment(node, defs, pattern).matched_via == m.matched_via,
        spec_node_match(node, defs, pattern) is None ==> spec_node_assignment(node, defs, pattern).layer_id == "unassigned"@
            && spec_node_assignment(node, defs, pattern).matched_prefix is None
            && spec_node_assignment(node, defs, pattern).matched_via == matched_via::UNMATCHED@,
{
}

} // verus!
