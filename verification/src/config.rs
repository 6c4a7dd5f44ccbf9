//! The architectural summary of a model's `config.json` and the conceptual
//! transformer layers derived from it (embeddings, encoder blocks, pooler,
//! classifier).

use vstd::prelude::*;
use crate::text::{
    chars_of, contains, push_decimal, string_of, to_lowercase, str_eq, parse_u64, spec_contains,
    spec_decimal, spec_to_lowercase, spec_parse_u64,
};
use crate::json::{
    JsonValue, json_get, json_as_u64, strings_of, spec_get, spec_as_u64, spec_strings_of,
    spec_member_index, lemma_member_index,
};

verus! {

// ─── Types ──────────────────────────────────────────────────────────────────

/// Architectural metadata extracted from `config.json`.
pub struct ConfigSummary {
    pub model_type: String,
    pub architectures: Vec<String>,
    pub vocab_size: Option<u32>,
    pub hidden_size: Option<u32>,
    pub num_hidden_layers: Option<u32>,
    pub num_attention_heads: Option<u32>,
    pub intermediate_size: Option<u32>,
    pub max_position_embeddings: Option<u32>,
    /// id2label mapping as `(id, label)` pairs, ordered by id.
    pub id2label: Vec<(String, String)>,
}

/// A conceptual transformer layer with positional aliases used to map ONNX
/// node scopes to the layer.
pub struct LayerDef {
    pub id: String,
    pub aliases: Vec<String>,
    pub description: String,
    pub sub_components: Vec<String>,
}

/// The characters of each string.
pub open spec fn strs(v: Seq<String>) -> Seq<Seq<char>> {
    v.map_values(|s: String| s@)
}

/// The characters of each `(id, label)` pair.
pub open spec fn pairs_view(v: Seq<(String, String)>) -> Seq<(Seq<char>, Seq<char>)> {
    v.map_values(|p: (String, String)| (p.0@, p.1@))
}

pub struct ConfigView {
    pub model_type: Seq<char>,
    pub architectures: Seq<Seq<char>>,
    pub vocab_size: Option<u32>,
    pub hidden_size: Option<u32>,
    pub num_hidden_layers: Option<u32>,
    pub num_attention_heads: Option<u32>,
    pub intermediate_size: Option<u32>,
    pub max_position_embeddings: Option<u32>,
    pub id2label: Seq<(Seq<char>, Seq<char>)>,
}

impl View for ConfigSummary {
    type V = ConfigView;

    open spec fn view(&self) -> ConfigView {
        ConfigView {
            model_type: self.model_type@,
            architectures: strs(self.architectures@),
            vocab_size: self.vocab_size,
            hidden_size: self.hidden_size,
            num_hidden_layers: self.num_hidden_layers,
            num_attention_heads: self.num_attention_heads,
            intermediate_size: self.intermediate_size,
            max_position_embeddings: self.max_position_embeddings,
            id2label: pairs_view(self.id2label@),
        }
    }
}

pub struct LayerView {
    pub id: Seq<char>,
    pub aliases: Seq<Seq<char>>,
    pub description: Seq<char>,
    pub sub_components: Seq<Seq<char>>,
}

impl View for LayerDef {
    type V = LayerView;

    open spec fn view(&self) -> LayerView {
        LayerView {
            id: self.id@,
            aliases: strs(self.aliases@),
            description: self.description@,
            sub_components: strs(self.sub_components@),
        }
    }
}

/// The view of each layer.
pub open spec fn layers_view(defs: Seq<LayerDef>) -> Seq<LayerView> {
    defs.map_values(|d: LayerDef| d@)
}

impl Default for ConfigSummary {
    /// The all-empty summary (the summary of a model without `config.json`).
    fn default() -> (r: Self)
        ensures
            r@ == spec_empty_config(),
    {
        let r = ConfigSummary {
            model_type: String::new(),
            architectures: Vec::new(),
            vocab_size: None,
            hidden_size: None,
            num_hidden_layers: None,
            num_attention_heads: None,
            intermediate_size: None,
            max_position_embeddings: None,
            id2label: Vec::new(),
        };
        assert(r@.architectures =~= Seq::<Seq<char>>::empty());
        assert(r@.id2label =~= Seq::<(Seq<char>, Seq<char>)>::empty());
        r
    }
}

pub open spec fn spec_empty_config() -> ConfigView {
    ConfigView {
        model_type: Seq::empty(),
        architectures: Seq::empty(),
        vocab_size: None,
        hidden_size: None,
        num_hidden_layers: None,
        num_attention_heads: None,
        intermediate_size: None,
        max_position_embeddings: None,
        id2label: Seq::empty(),
    }
}

// ─── Module roots ───────────────────────────────────────────────────────────

/// Whether the model type or one of the architectures names DeBERTa
/// (case-insensitively).
pub open spec fn spec_is_deberta(c: ConfigView) -> bool {
    ||| spec_contains(spec_to_lowercase(c.model_type), "deberta"@)
    ||| exists|i: int|
        0 <= i < c.architectures.len() && spec_contains(
            spec_to_lowercase(#[trigger] c.architectures[i]),
            "deberta"@,
        )
}

/// The prioritised module-name prefixes of a model; the first is the
/// primary root.
pub open spec fn spec_module_roots(c: ConfigView) -> Seq<Seq<char>> {
    if spec_is_deberta(c) {
        seq!["deberta"@, "model"@, "bert"@, "roberta"@]
    } else {
        seq!["model"@, "encoder"@, "transformer"@]
    }
}

fn names_deberta(s: &str) -> (r: bool)
    ensures
        r == spec_contains(spec_to_lowercase(s@), "deberta"@),
{
    let lower = to_lowercase(s);
    let lc = chars_of(lower.as_str());
    let pat = chars_of("deberta");
    contains(lc.as_slice(), pat.as_slice())
}

/// Chooses the prioritised list of module-name prefixes from the model type
/// and architectures.  The first entry is the "primary" root.
pub fn module_roots_for_model(config: &ConfigSummary) -> (r: Vec<String>)
    ensures
        strs(r@) == spec_module_roots(config@),
{
    let mut deberta = names_deberta(config.model_type.as_str());
    let mut i: usize = 0;
    while i < config.architectures.len()
        invariant
            i <= config.architectures@.len(),
            deberta == (spec_contains(spec_to_lowercase(config@.model_type), "deberta"@) || exists|
                j: int,
            |
                0 <= j < i && spec_contains(
                    spec_to_lowercase(#[trigger] config@.architectures[j]),
                    "deberta"@,
                )),
        decreases config.architectures@.len() - i,
    {
        let hit = names_deberta(config.architectures[i].as_str());
        proof {
            assert(config@.architectures[i as int] == config.architectures@[i as int]@);
            if hit {
                assert(spec_contains(spec_to_lowercase(config@.architectures[i as int]), "deberta"@));
            }
        }
        deberta = deberta || hit;
        i += 1;
    }
    let r = if deberta {
        vec![
            String::from_str("deberta"),
            String::from_str("model"),
            String::from_str("bert"),
            String::from_str("roberta"),
        ]
    } else {
        vec![String::from_str("model"), String::from_str("encoder"), String::from_str("transformer")]
    };
    assert(strs(r@) =~= spec_module_roots(config@));
    r
}

// ─── Layer names ────────────────────────────────────────────────────────────

pub open spec fn spec_embeddings_layer(roots: Seq<Seq<char>>, primary: Seq<char>) -> LayerView {
    LayerView {
        id: primary + ".embeddings"@,
        aliases: roots.map_values(|r: Seq<char>| r + ".embeddings"@).push("embeddings"@),
        description: "Token Embeddings"@,
        sub_components: Seq::empty(),
    }
}

/// The aliases of encoder block `i`: `<root>.encoder.layer.<i>` for every
/// root, `encoder.layer.<i>` when the primary root is `encoder`, then
/// `layer.<i>` and `layer_<i>`.
pub open spec fn spec_encoder_aliases(roots: Seq<Seq<char>>, primary: Seq<char>, i: nat) -> Seq<
    Seq<char>,
> {
    let d = spec_decimal(i);
    let base = roots.map_values(|r: Seq<char>| r + ".encoder.layer."@ + d);
    let with_bare = if primary == "encoder"@ {
        base.push("encoder.layer."@ + d)
    } else {
        base
    };
    with_bare.push("layer."@ + d).push("layer_"@ + d)
}

pub open spec fn spec_encoder_layer(roots: Seq<Seq<char>>, primary: Seq<char>, i: nat) -> LayerView {
    LayerView {
        id: primary + ".encoder.layer."@ + spec_decimal(i),
        aliases: spec_encoder_aliases(roots, primary, i),
        description: "Encoder Block "@ + spec_decimal(i),
        sub_components: seq!["attention"@, "intermediate"@, "output"@],
    }
}

pub open spec fn spec_pooler_layer(primary: Seq<char>) -> LayerView {
    LayerView {
        id: "pooler"@,
        aliases: seq!["pooler"@, primary + ".pooler"@],
        description: "Pooler Layer"@,
        sub_components: Seq::empty(),
    }
}

pub open spec fn spec_classifier_layer() -> LayerView {
    LayerView {
        id: "classifier"@,
        aliases: seq!["classifier"@, "cls"@, "classification_head"@, "head"@],
        description: "Classification Head"@,
        sub_components: Seq::empty(),
    }
}

/// Number of encoder blocks: `num_hidden_layers`, or 0 if absent.
pub open spec fn spec_num_blocks(c: ConfigView) -> nat {
    match c.num_hidden_layers {
        Some(n) => n as nat,
        None => 0,
    }
}

/// The layers of a model, in order: embeddings, the encoder blocks, pooler,
/// classifier.
pub open spec fn spec_layer_names(c: ConfigView) -> Seq<LayerView> {
    let roots = spec_module_roots(c);
    let primary = roots[0];
    seq![spec_embeddings_layer(roots, primary)] + Seq::new(
        spec_num_blocks(c),
        |i: int| spec_encoder_layer(roots, primary, i as nat),
    ) + seq![spec_pooler_layer(primary), spec_classifier_layer()]
}

fn joined(a: &String, b: &str) -> (r: String)
    ensures
        r@ == a@ + b@,
{
    let mut r = a.clone();
    r.append(b);
    r
}

fn decimal_string(n: usize) -> (r: String)
    ensures
        r@ == spec_decimal(n as nat),
{
    let mut v: Vec<char> = Vec::new();
    push_decimal(&mut v, n);
    assert(v@ =~= spec_decimal(n as nat));
    string_of(v.as_slice())
}

fn embeddings_layer(roots: &Vec<String>) -> (r: LayerDef)
    requires
        roots@.len() > 0,
    ensures
        r@ == spec_embeddings_layer(strs(roots@), roots@[0]@),
{
    let mut aliases: Vec<String> = Vec::new();
    let mut k: usize = 0;
    while k < roots.len()
        invariant
            k <= roots@.len(),
            aliases@.len() == k,
            forall|m: int| 0 <= m < k ==> #[trigger] aliases@[m]@ == roots@[m]@ + ".embeddings"@,
        decreases roots@.len() - k,
    {
        aliases.push(joined(&roots[k], ".embeddings"));
        k += 1;
    }
    assert(strs(aliases@) =~= strs(roots@).map_values(|r: Seq<char>| r + ".embeddings"@));
    aliases.push(String::from_str("embeddings"));
    let r = LayerDef {
        id: joined(&roots[0], ".embeddings"),
        aliases,
        description: String::from_str("Token Embeddings"),
        sub_components: Vec::new(),
    };
    assert(roots@.take(roots@.len() as int) =~= roots@);
    assert(r@.aliases =~= spec_embeddings_layer(strs(roots@), roots@[0]@).aliases);
    assert(r@.sub_components =~= Seq::<Seq<char>>::empty());
    r
}

fn encoder_layer(roots: &Vec<String>, bare_encoder: bool, i: usize) -> (r: LayerDef)
    requires
        roots@.len() > 0,
        bare_encoder == (roots@[0]@ == "encoder"@),
    ensures
        r@ == spec_encoder_layer(strs(roots@), roots@[0]@, i as nat),
{
    let d = decimal_string(i);
    let mut aliases: Vec<String> = Vec::new();
    let mut k: usize = 0;
    while k < roots.len()
        invariant
            k <= roots@.len(),
            d@ == spec_decimal(i as nat),
            aliases@.len() == k,
            forall|m: int|
                0 <= m < k ==> #[trigger] aliases@[m]@ == roots@[m]@ + ".encoder.layer."@
                    + spec_decimal(i as nat),
        decreases roots@.len() - k,
    {
        let a = joined(&joined(&roots[k], ".encoder.layer."), d.as_str());
        aliases.push(a);
        k += 1;
    }
    assert(roots@.take(roots@.len() as int) =~= roots@);
    let ghost base = strs(aliases@);
    if bare_encoder {
        aliases.push(joined(&String::from_str("encoder.layer."), d.as_str()));
    }
    let ghost with_bare = strs(aliases@);
    aliases.push(joined(&String::from_str("layer."), d.as_str()));
    aliases.push(joined(&String::from_str("layer_"), d.as_str()));
    let r = LayerDef {
        id: joined(&joined(&roots[0], ".encoder.layer."), d.as_str()),
        aliases,
        description: joined(&String::from_str("Encoder Block "), d.as_str()),
        sub_components: vec![
            String::from_str("attention"),
            String::from_str("intermediate"),
            String::from_str("output"),
        ],
    };
    proof {
        let spec_base = strs(roots@).map_values(
            |r: Seq<char>| r + ".encoder.layer."@ + spec_decimal(i as nat),
        );
        assert(base =~= spec_base);
        if bare_encoder {
            assert(with_bare =~= spec_base.push("encoder.layer."@ + spec_decimal(i as nat)));
        } else {
            assert(with_bare =~= spec_base);
        }
        assert(r@.aliases =~= with_bare.push("layer."@ + spec_decimal(i as nat)).push(
            "layer_"@ + spec_decimal(i as nat),
        ));
        assert(r@.aliases =~= spec_encoder_aliases(strs(roots@), roots@[0]@, i as nat));
        assert(r@.sub_components =~= seq!["attention"@, "intermediate"@, "output"@]);
    }
    r
}

/// Generates the conceptual layer definitions of a model.
///
/// Layer order:
/// 1. Embeddings
/// 2. N encoder blocks  (`num_hidden_layers`, or 0 if absent)
/// 3. Pooler
/// 4. Classifier
pub fn generate_layer_names(config: &ConfigSummary) -> (r: Vec<LayerDef>)
    ensures
        layers_view(r@) == spec_layer_names(config@),
{
    let roots = module_roots_for_model(config);
    let ghost sroots = spec_module_roots(config@);
    assert(roots@.len() > 0 && roots@[0]@ == sroots[0]) by {
        assert(sroots.len() >= 3);
        assert(strs(roots@).len() == roots@.len());
        assert(strs(roots@)[0] == roots@[0]@);
    }
    let bare_encoder = str_eq(roots[0].as_str(), "encoder");
    let mut layers: Vec<LayerDef> = Vec::new();
    layers.push(embeddings_layer(&roots));
    let n: usize = match config.num_hidden_layers {
        Some(v) => v as usize,
        None => 0,
    };
    let mut i: usize = 0;
    while i < n
        invariant
            i <= n,
            n == spec_num_blocks(config@),
            roots@.len() > 0,
            strs(roots@) == sroots,
            sroots == spec_module_roots(config@),
            bare_encoder == (roots@[0]@ == "encoder"@),
            layers@.len() == i + 1,
            layers@[0]@ == spec_embeddings_layer(sroots, roots@[0]@),
            forall|k: int|
                0 <= k < i ==> #[trigger] layers@[k + 1]@ == spec_encoder_layer(
                    sroots,
                    roots@[0]@,
                    k as nat,
                ),
        decreases n - i,
    {
        layers.push(encoder_layer(&roots, bare_encoder, i));
        i += 1;
    }
    layers.push(
        LayerDef {
            id: String::from_str("pooler"),
            aliases: vec![String::from_str("pooler"), joined(&roots[0], ".pooler")],
            description: String::from_str("Pooler Layer"),
            sub_components: Vec::new(),
        },
    );
    layers.push(
        LayerDef {
            id: String::from_str("classifier"),
            aliases: vec![
                String::from_str("classifier"),
                String::from_str("cls"),
                String::from_str("classification_head"),
                String::from_str("head"),
            ],
            description: String::from_str("Classification Head"),
            sub_components: Vec::new(),
        },
    );
    proof {
        let lv = layers_view(layers@);
        let m = lv.len();
        assert forall|k: int| 0 <= k < n implies #[trigger] lv[k + 1] == spec_encoder_layer(sroots, roots@[0]@, k as nat) by {
            assert(layers@[k + 1]@ == spec_encoder_layer(sroots, roots@[0]@, k as nat));
        }
        assert(lv[m - 2].aliases =~= spec_pooler_layer(roots@[0]@).aliases);
        assert(lv[m - 2].sub_components =~= Seq::<Seq<char>>::empty());
        assert(lv[m - 1].aliases =~= spec_classifier_layer().aliases);
        assert(lv[m - 1].sub_components =~= Seq::<Seq<char>>::empty());
        let spec = spec_layer_names(config@);
        assert(m == n + 3);
        assert(spec.len() == n + 3);
        assert(lv[0] == spec[0]);
        assert forall|k: int| 0 <= k < n implies #[trigger] lv[k + 1] == spec[k + 1] by {
            assert(lv[k + 1] == spec_encoder_layer(sroots, roots@[0]@, k as nat));
        }
        assert(lv[m - 2] == spec[m - 2]);
        assert(lv[m - 1] == spec[m - 1]);
        assert forall|k: int| 0 <= k < m implies #[trigger] lv[k] == spec[k] by {
            if 1 <= k <= n {
                assert(lv[(k - 1) + 1] == spec[(k - 1) + 1]);
            }
        }
        assert(lv =~= spec);
    }
    layers
}

/// There are `num_hidden_layers + 3` layers: embeddings first, the encoder
/// blocks next, then pooler and classifier; every layer has at least one
/// alias, and every encoder block has the sub-components `attention`,
/// `intermediate`, `output`.
pub proof fn lemma_layer_names_shape(c: ConfigView)
    ensures
        ({
            let ls = spec_layer_names(c);
            let n = spec_num_blocks(c);
            &&& ls.len() == n + 3
            &&& ls[0].id == spec_module_roots(c)[0] + ".embeddings"@
            &&& ls[n as int + 1].id == "pooler"@
            &&& ls[n as int + 2].id == "classifier"@
            &&& forall|i: int| 0 <= i < ls.len() ==> (#[trigger] ls[i]).aliases.len() > 0
            &&& forall|i: int|
                1 <= i <= n ==> (#[trigger] ls[i]).sub_components == seq![
                    "attention"@,
                    "intermediate"@,
                    "output"@,
                ] && ls[i].id == spec_module_roots(c)[0] + ".encoder.layer."@ + spec_decimal(
                    (i - 1) as nat,
                )
        }),
{
    let ls = spec_layer_names(c);
    let n = spec_num_blocks(c);
    let roots = spec_module_roots(c);
    assert forall|i: int| 0 <= i < ls.len() implies (#[trigger] ls[i]).aliases.len() > 0 by {
        if 1 <= i <= n {
            let a = spec_encoder_aliases(roots, roots[0], (i - 1) as nat);
            assert(a.len() >= 2);
        }
    }
}

// ─── Reading config.json ────────────────────────────────────────────────────

/// Sort key of an id2label id: its value as a `u64`, or `u64::MAX`.
pub open spec fn spec_label_key(id: Seq<char>) -> u64 {
    match spec_parse_u64(id) {
        Some(v) => v,
        None => u64::MAX,
    }
}

/// The `(id, label)` pairs of the string-valued members, in member order.
pub open spec fn spec_label_pairs(members: Seq<(String, JsonValue)>) -> Seq<(Seq<char>, Seq<char>)>
    decreases members.len(),
{
    if members.len() == 0 {
        Seq::empty()
    } else {
        match members.last().1 {
            JsonValue::Str(s) => spec_label_pairs(members.drop_last()).push((members.last().0@, s@)),
            _ => spec_label_pairs(members.drop_last()),
        }
    }
}

/// Where a stable insertion puts `x` into `s`: after the last element whose
/// key is at most `x`'s.
pub open spec fn spec_insert_pos(x: (Seq<char>, Seq<char>), s: Seq<(Seq<char>, Seq<char>)>) -> nat
    decreases s.len(),
{
    if s.len() == 0 {
        0
    } else if spec_label_key(s.last().0) <= spec_label_key(x.0) {
        s.len()
    } else {
        spec_insert_pos(x, s.drop_last())
    }
}

/// The pairs stably sorted by key (`slice::sort_by`, which is stable).
pub open spec fn spec_sort_pairs(s: Seq<(Seq<char>, Seq<char>)>) -> Seq<(Seq<char>, Seq<char>)>
    decreases s.len(),
{
    if s.len() == 0 {
        s
    } else {
        let rest = spec_sort_pairs(s.drop_last());
        let p = spec_insert_pos(s.last(), rest) as int;
        rest.take(p) + seq![s.last()] + rest.skip(p)
    }
}

pub open spec fn spec_u32_field(root: JsonValue, key: Seq<char>) -> Option<u32> {
    match spec_as_u64(spec_get(root, key)) {
        Some(v) => Some(v as u32),
        None => None,
    }
}

/// The summary of a parsed `config.json`: `model_type` (or `unknown`), the
/// string architectures, the numeric fields truncated to `u32`, and the
/// string-valued `id2label` members sorted by numeric id.
pub open spec fn spec_config_from_json(root: JsonValue) -> ConfigView {
    ConfigView {
        model_type: match spec_get(root, "model_type"@) {
            JsonValue::Str(s) => s@,
            _ => "unknown"@,
        },
        architectures: match spec_get(root, "architectures"@) {
            JsonValue::Array(items) => spec_strings_of(items@),
            _ => Seq::empty(),
        },
        vocab_size: spec_u32_field(root, "vocab_size"@),
        hidden_size: spec_u32_field(root, "hidden_size"@),
        num_hidden_layers: spec_u32_field(root, "num_hidden_layers"@),
        num_attention_heads: spec_u32_field(root, "num_attention_heads"@),
        intermediate_size: spec_u32_field(root, "intermediate_size"@),
        max_position_embeddings: spec_u32_field(root, "max_position_embeddings"@),
        id2label: match spec_get(root, "id2label"@) {
            JsonValue::Object(members) => spec_sort_pairs(spec_label_pairs(members@)),
            _ => Seq::empty(),
        },
    }
}

fn u32_field(root: &JsonValue, key: &str) -> (r: Option<u32>)
    ensures
        r == spec_u32_field(*root, key@),
{
    match json_as_u64(json_get(root, key)) {
        Some(v) => Some(#[verifier::truncate] (v as u32)),
        None => None,
    }
}

fn label_key(id: &String) -> (r: u64)
    ensures
        r == spec_label_key(id@),
{
    let c = chars_of(id.as_str());
    match parse_u64(c.as_slice()) {
        Some(v) => v,
        None => u64::MAX,
    }
}

proof fn lemma_insert_pos_skip(
    x: (Seq<char>, Seq<char>),
    s: Seq<(Seq<char>, Seq<char>)>,
    j: int,
)
    requires
        0 <= j <= s.len(),
        forall|k: int| j <= k < s.len() ==> spec_label_key(#[trigger] s[k].0) > spec_label_key(x.0),
    ensures
        spec_insert_pos(x, s) == spec_insert_pos(x, s.take(j)),
    decreases s.len() - j,
{
    if j < s.len() {
        lemma_insert_pos_skip(x, s.drop_last(), j);
        assert(s.drop_last().take(j) =~= s.take(j));
    } else {
        assert(s.take(j) =~= s);
    }
}

proof fn lemma_insert_pos_bound(x: (Seq<char>, Seq<char>), s: Seq<(Seq<char>, Seq<char>)>)
    ensures
        spec_insert_pos(x, s) <= s.len(),
    decreases s.len(),
{
    if s.len() > 0 {
        lemma_insert_pos_bound(x, s.drop_last());
    }
}

/// Reads the architectural summary out of a parsed `config.json`.
pub fn config_summary_from_json(root: &JsonValue) -> (r: ConfigSummary)
    ensures
        r@ == spec_config_from_json(*root),
{
    let model_type = match json_get(root, "model_type") {
        JsonValue::Str(s) => s.clone(),
        _ => String::from_str("unknown"),
    };
    let architectures = match json_get(root, "architectures") {
        JsonValue::Array(items) => strings_of(items),
        _ => Vec::new(),
    };
    let mut id2label: Vec<(String, String)> = Vec::new();
    match json_get(root, "id2label") {
        JsonValue::Object(members) => {
            let mut keys: Vec<u64> = Vec::new();
            let mut i: usize = 0;
            while i < members.len()
                invariant
                    i <= members@.len(),
                    keys@.len() == id2label@.len(),
                    forall|k: int| 0 <= k < keys@.len() ==> #[trigger] keys@[k] == spec_label_key(id2label@[k].0@),
                    pairs_view(id2label@) == spec_sort_pairs(spec_label_pairs(members@.take(i as int))),
                decreases members@.len() - i,
            {
                let ghost before = pairs_view(id2label@);
                assert(members@.take(i + 1).drop_last() =~= members@.take(i as int));
                match &members[i].1 {
                    JsonValue::Str(label) => {
                        let key = label_key(&members[i].0);
                        let ghost x = (members@[i as int].0@, label@);
                        let mut j = id2label.len();
                        while j > 0 && keys[j - 1] > key
                            invariant
                                j <= id2label@.len(),
                                keys@.len() == id2label@.len(),
                                forall|k: int| 0 <= k < keys@.len() ==> #[trigger] keys@[k] == spec_label_key(id2label@[k].0@),
                                key == spec_label_key(x.0),
                                before == pairs_view(id2label@),
                                forall|k: int| j <= k < before.len() ==> spec_label_key(#[trigger] before[k].0) > spec_label_key(x.0),
                            decreases j,
                        {
                            assert(before[j - 1].0 == id2label@[j - 1].0@);
                            j -= 1;
                        }
                        proof {
                            lemma_insert_pos_skip(x, before, j as int);
                            if j > 0 {
                                assert(before.take(j as int).last() == before[j - 1]);
                                assert(before[j - 1].0 == id2label@[j - 1].0@);
                            }
                            assert(spec_insert_pos(x, before.take(j as int)) == j) by {
                                if j > 0 {
                                    assert(before.take(j as int).len() == j);
                                } else {
                                    assert(before.take(0).len() == 0);
                                }
                            }
                            assert(spec_label_pairs(members@.take(i + 1)) == spec_label_pairs(
                                members@.take(i as int),
                            ).push(x));
                            assert(spec_label_pairs(members@.take(i + 1)).last() == x);
                            assert(spec_label_pairs(members@.take(i + 1)).drop_last()
                                =~= spec_label_pairs(members@.take(i as int)));
                        }
                        let ghost old_keys = keys@;
                        let ghost old_ids = id2label@;
                        id2label.insert(j, (members[i].0.clone(), label.clone()));
                        keys.insert(j, key);
                        proof {
                            assert(pairs_view(id2label@) =~= before.take(j as int) + seq![x] + before.skip(j as int));
                            assert forall|k: int| 0 <= k < keys@.len() implies #[trigger] keys@[k] == spec_label_key(id2label@[k].0@) by {
                                if k < j {
                                    assert(keys@[k] == old_keys[k]);
                                    assert(id2label@[k] == old_ids[k]);
                                } else if k > j {
                                    assert(keys@[k] == old_keys[k - 1]);
                                    assert(id2label@[k] == old_ids[k - 1]);
                                }
                            }
                        }
                    },
                    _ => {
                        assert(spec_label_pairs(members@.take(i + 1)) == spec_label_pairs(
                            members@.take(i as int),
                        ));
                    },
                }
                i += 1;
            }
            assert(members@.take(members@.len() as int) =~= members@);
        },
        _ => {},
    }
    let r = ConfigSummary {
        model_type,
        architectures,
        vocab_size: u32_field(root, "vocab_size"),
        hidden_size: u32_field(root, "hidden_size"),
        num_hidden_layers: u32_field(root, "num_hidden_layers"),
        num_attention_heads: u32_field(root, "num_attention_heads"),
        intermediate_size: u32_field(root, "intermediate_size"),
        max_position_embeddings: u32_field(root, "max_position_embeddings"),
        id2label,
    };
    proof {
        match spec_get(*root, "id2label"@) {
            JsonValue::Object(_) => {},
            _ => {
                assert(r@.id2label =~= Seq::<(Seq<char>, Seq<char>)>::empty());
            },
        }
        match spec_get(*root, "architectures"@) {
            JsonValue::Array(_) => {},
            _ => {
                assert(r@.architectures =~= Seq::<Seq<char>>::empty());
            },
        }
    }
    r
}

/// The id2label pairs of a summary read from JSON are ordered by numeric id
/// (non-numeric ids last), and there are as many as string-valued members.
pub proof fn lemma_id2label_sorted(s: Seq<(Seq<char>, Seq<char>)>)
    ensures
        spec_sort_pairs(s).len() == s.len(),
        forall|i: int, j: int|
            0 <= i <= j < s.len() ==> spec_label_key(#[trigger] spec_sort_pairs(s)[i].0)
                <= spec_label_key(#[trigger] spec_sort_pairs(s)[j].0),
    decreases s.len(),
{
    if s.len() > 0 {
        let rest = spec_sort_pairs(s.drop_last());
        lemma_id2label_sorted(s.drop_last());
        let x = s.last();
        lemma_insert_pos_bound(x, rest);
        let p = spec_insert_pos(x, rest) as int;
        lemma_insert_pos_facts(x, rest);
        let out = spec_sort_pairs(s);
        assert(out == rest.take(p) + seq![x] + rest.skip(p));
        assert forall|i: int, j: int| 0 <= i <= j < s.len() implies spec_label_key(
            #[trigger] out[i].0,
        ) <= spec_label_key(#[trigger] out[j].0) by {
            let vi = if i < p { rest[i] } else if i == p { x } else { rest[i - 1] };
            let vj = if j < p { rest[j] } else if j == p { x } else { rest[j - 1] };
            assert(out[i] == vi);
            assert(out[j] == vj);
            if i < p && j > p {
                assert(spec_label_key(rest[i].0) <= spec_label_key(rest[j - 1].0));
            }
        }
    }
}

proof fn lemma_insert_pos_facts(x: (Seq<char>, Seq<char>), s: Seq<(Seq<char>, Seq<char>)>)
    requires
        forall|i: int, j: int|
            0 <= i <= j < s.len() ==> spec_label_key(#[trigger] s[i].0) <= spec_label_key(
                #[trigger] s[j].0,
            ),
    ensures
        forall|k: int| 0 <= k < spec_insert_pos(x, s) ==> spec_label_key(#[trigger] s[k].0) <= spec_label_key(x.0),
        forall|k: int|
            spec_insert_pos(x, s) <= k < s.len() ==> spec_label_key(#[trigger] s[k].0) > spec_label_key(
                x.0,
            ),
    decreases s.len(),
{
    if s.len() > 0 {
        if spec_label_key(s.last().0) <= spec_label_key(x.0) {
            assert forall|k: int| 0 <= k < s.len() implies spec_label_key(#[trigger] s[k].0) <= spec_label_key(x.0) by {
                assert(spec_label_key(s[k].0) <= spec_label_key(s[s.len() - 1].0));
            }
        } else {
            let t = s.drop_last();
            lemma_insert_pos_facts(x, t);
            assert forall|k: int| 0 <= k < spec_insert_pos(x, s) implies spec_label_key(#[trigger] s[k].0) <= spec_label_key(x.0) by {
                assert(s[k] == t[k]);
            }
            assert forall|k: int| spec_insert_pos(x, s) <= k < s.len() implies spec_label_key(#[trigger] s[k].0) > spec_label_key(x.0) by {
                if k < s.len() - 1 {
                    assert(s[k] == t[k]);
                }
            }
        }
    }
}

/// The module roots are those of DeBERTa exactly when the lower-cased model
/// type or some lower-cased architecture names `deberta`, and the first
/// layer is then `deberta.embeddings`; otherwise they are `model`,
/// `encoder`, `transformer`, and the first layer is `model.embeddings`.
pub proof fn lemma_deberta_roots(c: ConfigView)
    ensures
        spec_contains(spec_to_lowercase(c.model_type), "deberta"@) ==> spec_module_roots(c) == seq![
            "deberta"@,
            "model"@,
            "bert"@,
            "roberta"@,
        ] && spec_layer_names(c)[0].id == "deberta.embeddings"@,
        forall|i: int|
            0 <= i < c.architectures.len() && spec_contains(spec_to_lowercase(#[trigger] c.architectures[i]), "deberta"@)
                ==> spec_module_roots(c) == seq!["deberta"@, "model"@, "bert"@, "roberta"@]
                && spec_layer_names(c)[0].id == "deberta.embeddings"@,
        (!spec_contains(spec_to_lowercase(c.model_type), "deberta"@) && forall|i: int|
            0 <= i < c.architectures.len() ==> !spec_contains(spec_to_lowercase(#[trigger] c.architectures[i]), "deberta"@))
            ==> spec_module_roots(c) == seq!["model"@, "encoder"@, "transformer"@]
                && spec_layer_names(c)[0].id == "model.embeddings"@,
{
    reveal_strlit("deberta");
    reveal_strlit("model");
    reveal_strlit(".embeddings");
    reveal_strlit("deberta.embeddings");
    reveal_strlit("model.embeddings");
    assert("deberta"@ + ".embeddings"@ =~= "deberta.embeddings"@);
    assert("model"@ + ".embeddings"@ =~= "model.embeddings"@);
    let ls = spec_layer_names(c);
    assert(ls[0].id == spec_module_roots(c)[0] + ".embeddings"@);
}

/// The value of a JSON member as a `u32` (a number with a `u64` value,
/// truncated), if it has one.
pub open spec fn member_u32(v: JsonValue) -> Option<u32> {
    match v {
        JsonValue::Number(n) => match n.as_u64 {
            Some(x) => Some(x as u32),
            None => None,
        },
        _ => None,
    }
}

/// `field` is what the config's member named `key` gives: the value of the
/// first member with that name, and none when there is no such member or
/// the config is not an object.
pub open spec fn reads_member(root: JsonValue, key: Seq<char>, field: Option<u32>) -> bool {
    match root {
        JsonValue::Object(members) => {
            &&& forall|i: int|
                0 <= i < members@.len() && (#[trigger] members@[i]).0@ == key && (forall|j: int|
                    0 <= j < i ==> members@[j].0@ != key) ==> field == member_u32(members@[i].1)
            &&& (forall|i: int| 0 <= i < members@.len() ==> (#[trigger] members@[i]).0@ != key) ==> field is None
        },
        _ => field is None,
    }
}

proof fn lemma_reads_u32_field(root: JsonValue, key: Seq<char>)
    ensures
        reads_member(root, key, spec_u32_field(root, key)),
{
    if let JsonValue::Object(members) = root {
        lemma_member_index(members@, key);
        assert forall|i: int|
            0 <= i < members@.len() && (#[trigger] members@[i]).0@ == key && (forall|j: int|
                0 <= j < i ==> members@[j].0@ != key) implies spec_u32_field(root, key) == member_u32(members@[i].1) by {
            match spec_member_index(members@, key) {
                Some(m) => {
                    if m < i {
                        assert(members@[m].0@ != key);
                    } else if m > i {
                        assert(members@[i].0@ != key);
                    }
                },
                None => {
                    assert(members@[i].0@ != key);
                },
            }
        }
    }
}

/// Each numeric field of a summary read from JSON comes from the member of
/// the same name: `vocab_size`, `hidden_size`, `num_hidden_layers`,
/// `num_attention_heads`, `intermediate_size`, `max_position_embeddings`.
pub proof fn lemma_numeric_fields_by_name(root: JsonValue)
    ensures
        reads_member(root, "vocab_size"@, spec_config_from_json(root).vocab_size),
        reads_member(root, "hidden_size"@, spec_config_from_json(root).hidden_size),
        reads_member(root, "num_hidden_layers"@, spec_config_from_json(root).num_hidden_layers),
        reads_member(root, "num_attention_heads"@, spec_config_from_json(root).num_attention_heads),
        reads_member(root, "intermediate_size"@, spec_config_from_json(root).intermediate_size),
        reads_member(root, "max_position_embeddings"@, spec_config_from_json(root).max_position_embeddings),
{
    lemma_reads_u32_field(root, "vocab_size"@);
    lemma_reads_u32_field(root, "hidden_size"@);
    lemma_reads_u32_field(root, "num_hidden_layers"@);
    lemma_reads_u32_field(root, "num_attention_heads"@);
    lemma_reads_u32_field(root, "intermediate_size"@);
    lemma_reads_u32_field(root, "max_position_embeddings"@);
}

/// The model type of a summary read from JSON is the first `model_type`
/// member when that is a string, and `unknown` otherwise.
pub proof fn lemma_model_type_by_name(root: JsonValue)
    ensures
        match root {
            JsonValue::Object(members) => {
                &&& forall|i: int|
                    0 <= i < members@.len() && (#[trigger] members@[i]).0@ == "model_type"@ && (forall|j: int|
                        0 <= j < i ==> members@[j].0@ != "model_type"@) ==> spec_config_from_json(root).model_type
                        == match members@[i].1 {
                        JsonValue::Str(s) => s@,
                        _ => "unknown"@,
                    }
                &&& (forall|i: int| 0 <= i < members@.len() ==> (#[trigger] members@[i]).0@ != "model_type"@)
                    ==> spec_config_from_json(root).model_type == "unknown"@
            },
            _ => spec_config_from_json(root).model_type == "unknown"@,
        },
{
    if let JsonValue::Object(members) = root {
        let key = "model_type"@;
        lemma_member_index(members@, key);
        assert forall|i: int|
            0 <= i < members@.len() && (#[trigger] members@[i]).0@ == key && (forall|j: int|
                0 <= j < i ==> members@[j].0@ != key) implies spec_config_from_json(root).model_type
                == match members@[i].1 {
                JsonValue::Str(s) => s@,
                _ => "unknown"@,
            } by {
            match spec_member_index(members@, key) {
                Some(m) => {
                    if m < i {
                        assert(members@[m].0@ != key);
                    } else if m > i {
                        assert(members@[i].0@ != key);
                    }
                },
                None => {
                    assert(members@[i].0@ != key);
                },
            }
        }
    }
}

/// Sorting the id2label pairs keeps exactly the pairs: every sorted pair
/// is one of the pairs, every pair is among the sorted ones, and no pair is
/// added or lost.
pub proof fn lemma_id2label_same_pairs(s: Seq<(Seq<char>, Seq<char>)>)
    ensures
        spec_sort_pairs(s).len() == s.len(),
        spec_sort_pairs(s).to_multiset() == s.to_multiset(),
        forall|i: int| 0 <= i < s.len() ==> spec_sort_pairs(s).contains(#[trigger] s[i]),
        forall|i: int| 0 <= i < s.len() ==> s.contains(#[trigger] spec_sort_pairs(s)[i]),
    decreases s.len(),
{
    broadcast use vstd::seq_lib::group_to_multiset_ensures;
    if s.len() > 0 {
        let r = s.drop_last();
        lemma_id2label_same_pairs(r);
        let rest = spec_sort_pairs(r);
        let x = s.last();
        lemma_insert_pos_bound(x, rest);
        let p = spec_insert_pos(x, rest) as int;
        let out = spec_sort_pairs(s);
        assert(out == rest.take(p) + seq![x] + rest.skip(p));
        assert(rest =~= rest.take(p) + rest.skip(p));
        vstd::seq_lib::lemma_multiset_commutative(rest.take(p), rest.skip(p));
        vstd::seq_lib::lemma_multiset_commutative(rest.take(p) + seq![x], rest.skip(p));
        vstd::seq_lib::lemma_multiset_commutative(rest.take(p), seq![x]);
        assert(s =~= r.push(x));
        assert(out.to_multiset() =~= s.to_multiset());
        assert forall|i: int| 0 <= i < s.len() implies out.contains(#[trigger] s[i]) by {
            assert(s.to_multiset().count(s[i]) > 0);
        }
        assert forall|i: int| 0 <= i < s.len() implies s.contains(#[trigger] out[i]) by {
            assert(out.to_multiset().count(out[i]) > 0);
        }
    }
}

} // verus!
