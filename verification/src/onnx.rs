//! The ONNX graph as the preprocessor keeps it: nodes with their inputs,
//! outputs, attributes and metadata, initializer and value-info metadata,
//! and the model-level metadata.

use vstd::prelude::*;
use crate::assoc::StrMap;
use crate::config::strs;
use crate::json::{JsonNumber, JsonValue};
use crate::text::{chars_of, push_decimal, spec_decimal, string_of};

verus! {

/// An attribute value of a node, as the preprocessor records it.  `f32`
/// values are kept as their IEEE-754 bit patterns (`f32::to_bits`).
pub enum AttrValue {
    Float(u32),
    Int(i64),
    Text(String),
    Floats(Vec<u32>),
    Ints(Vec<i64>),
    Texts(Vec<String>),
    Tensor { tensor_name: String, data_type: i32, dims: Vec<i64> },
    Null,
}

pub enum AttrView {
    Float(u32),
    Int(i64),
    Text(Seq<char>),
    Floats(Seq<u32>),
    Ints(Seq<i64>),
    Texts(Seq<Seq<char>>),
    Tensor { tensor_name: Seq<char>, data_type: i32, dims: Seq<i64> },
    Null,
}

impl View for AttrValue {
    type V = AttrView;

    open spec fn view(&self) -> AttrView {
        match self {
            AttrValue::Float(b) => AttrView::Float(*b),
            AttrValue::Int(i) => AttrView::Int(*i),
            AttrValue::Text(s) => AttrView::Text(s@),
            AttrValue::Floats(v) => AttrView::Floats(v@),
            AttrValue::Ints(v) => AttrView::Ints(v@),
            AttrValue::Texts(v) => AttrView::Texts(strs(v@)),
            AttrValue::Tensor { tensor_name, data_type, dims } => AttrView::Tensor {
                tensor_name: tensor_name@,
                data_type: *data_type,
                dims: dims@,
            },
            AttrValue::Null => AttrView::Null,
        }
    }
}

/// A node of the ONNX graph.
pub struct OnnxNode {
    pub id: String,
    pub name: String,
    pub op_type: String,
    pub domain: String,
    pub inputs: Vec<String>,
    pub outputs: Vec<String>,
    /// Attribute values by attribute name.
    pub attributes: StrMap<AttrValue>,
    pub doc_string: String,
    pub metadata_props: StrMap<String>,
}

pub struct NodeView {
    pub id: Seq<char>,
    pub name: Seq<char>,
    pub op_type: Seq<char>,
    pub domain: Seq<char>,
    pub inputs: Seq<Seq<char>>,
    pub outputs: Seq<Seq<char>>,
    pub attributes: Map<Seq<char>, AttrView>,
    pub doc_string: Seq<char>,
    pub metadata_props: Map<Seq<char>, Seq<char>>,
}

impl View for OnnxNode {
    type V = NodeView;

    open spec fn view(&self) -> NodeView {
        NodeView {
            id: self.id@,
            name: self.name@,
            op_type: self.op_type@,
            domain: self.domain@,
            inputs: strs(self.inputs@),
            outputs: strs(self.outputs@),
            attributes: self.attributes@,
            doc_string: self.doc_string@,
            metadata_props: self.metadata_props@,
        }
    }
}

/// The view of each node.
pub open spec fn nodes_view(nodes: Seq<OnnxNode>) -> Seq<NodeView> {
    nodes.map_values(|n: OnnxNode| n@)
}

// ─── Decoded model records ──────────────────────────────────────────────────
//
// The fields of a decoded ONNX `ModelProto` that the preprocessor reads.
// ONNX is a proto2 schema, so scalar fields are optional; `f32` values are
// carried as their bit patterns.

/// A `StringStringEntryProto`.
pub struct PropRecord {
    pub key: Option<String>,
    pub value: Option<String>,
}

/// An `OperatorSetIdProto`.
pub struct OpsetRecord {
    pub domain: Option<String>,
    pub version: Option<i64>,
}

/// The name, element type and dimensions of a `TensorProto`.
pub struct TensorRecord {
    pub name: Option<String>,
    pub data_type: Option<i32>,
    pub dims: Vec<i64>,
}

/// An `AttributeProto`.
pub struct AttributeRecord {
    pub name: Option<String>,
    /// The `AttributeType` code.
    pub attr_type: Option<i32>,
    pub f: Option<u32>,
    pub i: Option<i64>,
    pub s: Option<Vec<u8>>,
    pub t: Option<TensorRecord>,
    pub floats: Vec<u32>,
    pub ints: Vec<i64>,
    pub strings: Vec<Vec<u8>>,
}

/// The `value` of a `TensorShapeProto.Dimension`.
pub enum DimRecord {
    Value(i64),
    Param(String),
    Unset,
}

/// The `value` of a `TypeProto`: a tensor type with its shape, if it has
/// one, or another kind of type.
pub enum TypeValueRecord {
    Tensor { shape: Option<Vec<DimRecord>> },
    Other,
}

/// A `TypeProto`.
pub struct TypeRecord {
    pub value: Option<TypeValueRecord>,
}

/// A `ValueInfoProto`.
pub struct ValueInfoRecord {
    pub name: Option<String>,
    pub value_type: Option<TypeRecord>,
    pub metadata_props: Vec<PropRecord>,
}

/// A `NodeProto`.
pub struct NodeRecord {
    pub name: Option<String>,
    pub op_type: Option<String>,
    pub domain: Option<String>,
    pub input: Vec<String>,
    pub output: Vec<String>,
    pub attribute: Vec<AttributeRecord>,
    pub doc_string: Option<String>,
    pub metadata_props: Vec<PropRecord>,
}

/// A `GraphProto`.
pub struct GraphRecord {
    pub node: Vec<NodeRecord>,
    pub initializer: Vec<TensorRecord>,
    pub input: Vec<ValueInfoRecord>,
    pub output: Vec<ValueInfoRecord>,
    pub value_info: Vec<ValueInfoRecord>,
    pub metadata_props: Vec<PropRecord>,
}

/// A `ModelProto`.
pub struct ModelRecord {
    pub ir_version: Option<i64>,
    pub producer_name: Option<String>,
    pub producer_version: Option<String>,
    pub domain: Option<String>,
    pub model_version: Option<i64>,
    pub doc_string: Option<String>,
    pub metadata_props: Vec<PropRecord>,
    pub opset_import: Vec<OpsetRecord>,
    pub graph: Option<GraphRecord>,
}

// ─── The extracted bundle ───────────────────────────────────────────────────

/// The dimensions of a tensor shape: a number for a fixed size, a string
/// for a named one, `Null` for an unknown one.
pub struct TensorShape(pub Vec<JsonValue>);

/// Element type and dimensions of an initializer.
pub struct InitializerMeta {
    pub data_type: i32,
    pub dims: Vec<i64>,
}

impl View for InitializerMeta {
    type V = (i32, Seq<i64>);

    open spec fn view(&self) -> (i32, Seq<i64>) {
        (self.data_type, self.dims@)
    }
}

/// Shape and metadata of a graph input, output or intermediate value.
pub struct ValueInfoMeta {
    pub shape: Option<TensorShape>,
    pub metadata_props: StrMap<String>,
}

pub struct ValueInfoView {
    pub shape: Option<Seq<JsonValue>>,
    pub metadata_props: Map<Seq<char>, Seq<char>>,
}

impl View for ValueInfoMeta {
    type V = ValueInfoView;

    open spec fn view(&self) -> ValueInfoView {
        ValueInfoView {
            shape: match &self.shape {
                Some(s) => Some(s.0@),
                None => None,
            },
            metadata_props: self.metadata_props@,
        }
    }
}

/// An entry of the model's opset imports.
pub struct OpsetEntry {
    pub domain: String,
    pub version: i64,
}

impl View for OpsetEntry {
    type V = (Seq<char>, i64);

    open spec fn view(&self) -> (Seq<char>, i64) {
        (self.domain@, self.version)
    }
}

/// Model-level metadata.
pub struct ModelMetadata {
    pub ir_version: i64,
    pub producer_name: String,
    pub producer_version: String,
    pub domain: String,
    pub model_version: i64,
    pub doc_string: String,
    pub metadata_props: StrMap<String>,
    pub opset_import: Vec<OpsetEntry>,
}

pub struct MetadataView {
    pub ir_version: i64,
    pub producer_name: Seq<char>,
    pub producer_version: Seq<char>,
    pub domain: Seq<char>,
    pub model_version: i64,
    pub doc_string: Seq<char>,
    pub metadata_props: Map<Seq<char>, Seq<char>>,
    pub opset_import: Seq<(Seq<char>, i64)>,
}

impl View for ModelMetadata {
    type V = MetadataView;

    open spec fn view(&self) -> MetadataView {
        MetadataView {
            ir_version: self.ir_version,
            producer_name: self.producer_name@,
            producer_version: self.producer_version@,
            domain: self.domain@,
            model_version: self.model_version,
            doc_string: self.doc_string@,
            metadata_props: self.metadata_props@,
            opset_import: self.opset_import@.map_values(|o: OpsetEntry| o@),
        }
    }
}

/// Everything extracted from an ONNX model.
pub struct OnnxBundle {
    pub graph: Vec<OnnxNode>,
    pub graph_metadata: StrMap<String>,
    pub model_metadata: ModelMetadata,
    pub initializers: StrMap<InitializerMeta>,
    pub value_info: StrMap<ValueInfoMeta>,
}

pub struct BundleView {
    pub graph: Seq<NodeView>,
    pub graph_metadata: Map<Seq<char>, Seq<char>>,
    pub model_metadata: MetadataView,
    pub initializers: Map<Seq<char>, (i32, Seq<i64>)>,
    pub value_info: Map<Seq<char>, ValueInfoView>,
}

impl View for OnnxBundle {
    type V = BundleView;

    open spec fn view(&self) -> BundleView {
        BundleView {
            graph: nodes_view(self.graph@),
            graph_metadata: self.graph_metadata@,
            model_metadata: self.model_metadata@,
            initializers: self.initializers@,
            value_info: self.value_info@,
        }
    }
}

/// Why a decoded model yields no bundle.
pub enum OnnxError {
    /// The `ModelProto` has no `graph` field.
    MissingGraph,
}

// ─── Field conversions ──────────────────────────────────────────────────────

/// An optional string field, empty when absent.
pub open spec fn spec_str_or_empty(o: Option<String>) -> Seq<char> {
    match o {
        Some(s) => s@,
        None => Seq::empty(),
    }
}

fn str_or_empty(o: &Option<String>) -> (r: String)
    ensures
        r@ == spec_str_or_empty(*o),
{
    match o {
        Some(s) => s.clone(),
        None => String::new(),
    }
}

fn copy_strings(v: &Vec<String>) -> (r: Vec<String>)
    ensures
        r@ == v@,
{
    let r = v.clone();
    assert(r@ =~= v@);
    r
}

/// The pairs of a property list as a map; a later key replaces an earlier
/// one, and an absent key or value is empty.
pub open spec fn spec_props(props: Seq<PropRecord>) -> Map<Seq<char>, Seq<char>>
    decreases props.len(),
{
    if props.len() == 0 {
        Map::empty()
    } else {
        spec_props(props.drop_last()).insert(
            spec_str_or_empty(props.last().key),
            spec_str_or_empty(props.last().value),
        )
    }
}

/// Converts a property list to a map (see [`spec_props`]).
pub fn metadata_props_to_map(props: &[PropRecord]) -> (r: StrMap<String>)
    ensures
        r@ == spec_props(props@),
{
    let mut m: StrMap<String> = StrMap::new();
    let mut i: usize = 0;
    assert(props@.take(0) =~= Seq::<PropRecord>::empty());
    while i < props.len()
        invariant
            i <= props@.len(),
            m@ == spec_props(props@.take(i as int)),
        decreases props@.len() - i,
    {
        assert(props@.take(i + 1).drop_last() =~= props@.take(i as int));
        let k = str_or_empty(&props[i].key);
        let v = str_or_empty(&props[i].value);
        m.insert(k, v);
        i += 1;
    }
    assert(props@.take(props@.len() as int) =~= props@);
    m
}

/// The metadata of a model without an ONNX file.
pub open spec fn spec_empty_metadata() -> MetadataView {
    MetadataView {
        ir_version: 0,
        producer_name: Seq::empty(),
        producer_version: Seq::empty(),
        domain: Seq::empty(),
        model_version: 0,
        doc_string: Seq::empty(),
        metadata_props: Map::empty(),
        opset_import: Seq::empty(),
    }
}

/// All-empty model metadata.
pub fn empty_model_metadata() -> (r: ModelMetadata)
    ensures
        r@ == spec_empty_metadata(),
{
    let r = ModelMetadata {
        ir_version: 0,
        producer_name: String::new(),
        producer_version: String::new(),
        domain: String::new(),
        model_version: 0,
        doc_string: String::new(),
        metadata_props: StrMap::new(),
        opset_import: Vec::new(),
    };
    assert(r@.opset_import =~= Seq::<(Seq<char>, i64)>::empty());
    r
}

/// The bundle of a model without an ONNX file.
pub open spec fn spec_empty_bundle() -> BundleView {
    BundleView {
        graph: Seq::empty(),
        graph_metadata: Map::empty(),
        model_metadata: spec_empty_metadata(),
        initializers: Map::empty(),
        value_info: Map::empty(),
    }
}

/// The empty bundle.
pub fn empty_bundle() -> (r: OnnxBundle)
    ensures
        r@ == spec_empty_bundle(),
{
    let r = OnnxBundle {
        graph: Vec::new(),
        graph_metadata: StrMap::new(),
        model_metadata: empty_model_metadata(),
        initializers: StrMap::new(),
        value_info: StrMap::new(),
    };
    assert(r@.graph =~= Seq::<NodeView>::empty());
    r
}

// ─── Shapes ─────────────────────────────────────────────────────────────────

/// A JSON integer.
pub open spec fn spec_int_json(v: i64) -> JsonValue {
    JsonValue::Number(
        JsonNumber { as_u64: if v >= 0 { Some(v as u64) } else { None }, as_i64: Some(v) },
    )
}

/// A dimension as JSON: its size, its name, or `Null`.
pub open spec fn spec_dim_json(d: DimRecord) -> JsonValue {
    match d {
        DimRecord::Value(v) => spec_int_json(v),
        DimRecord::Param(s) => JsonValue::Str(s),
        DimRecord::Unset => JsonValue::Null,
    }
}

/// The shape of a tensor type, if the type is a tensor type with a shape.
pub open spec fn spec_tensor_shape(t: Option<TypeRecord>) -> Option<Seq<JsonValue>> {
    match t {
        Some(tp) => match tp.value {
            Some(TypeValueRecord::Tensor { shape: Some(dims) }) => Some(
                dims@.map_values(|d: DimRecord| spec_dim_json(d)),
            ),
            _ => None,
        },
        None => None,
    }
}

fn int_json(v: i64) -> (r: JsonValue)
    ensures
        r == spec_int_json(v),
{
    let as_u64 = if v >= 0 {
        Some(v as u64)
    } else {
        None
    };
    JsonValue::Number(JsonNumber { as_u64, as_i64: Some(v) })
}

/// Extracts the tensor shape from a type (see [`spec_tensor_shape`]).
pub fn tensor_shape_from_type_proto(type_proto: Option<&TypeRecord>) -> (r: Option<TensorShape>)
    ensures
        match r {
            Some(s) => spec_tensor_shape(match type_proto {
                Some(t) => Some(*t),
                None => None,
            }) == Some(s.0@),
            None => spec_tensor_shape(match type_proto {
                Some(t) => Some(*t),
                None => None,
            }) is None,
        },
{
    let tp = match type_proto {
        Some(tp) => tp,
        None => return None,
    };
    let dims = match &tp.value {
        Some(TypeValueRecord::Tensor { shape: Some(dims) }) => dims,
        _ => return None,
    };
    let mut out: Vec<JsonValue> = Vec::new();
    let mut i: usize = 0;
    while i < dims.len()
        invariant
            i <= dims@.len(),
            out@ == dims@.take(i as int).map_values(|d: DimRecord| spec_dim_json(d)),
        decreases dims@.len() - i,
    {
        let v = match &dims[i] {
            DimRecord::Value(v) => int_json(*v),
            DimRecord::Param(s) => JsonValue::Str(s.clone()),
            DimRecord::Unset => JsonValue::Null,
        };
        out.push(v);
        assert(out@ =~= dims@.take(i + 1).map_values(|d: DimRecord| spec_dim_json(d)));
        i += 1;
    }
    assert(dims@.take(dims@.len() as int) =~= dims@);
    Some(TensorShape(out))
}

// ─── Attributes ─────────────────────────────────────────────────────────────

/// What `String::from_utf8_lossy` makes of a byte string: its UTF-8
/// decoding, with each invalid sequence replaced by U+FFFD.
pub uninterp spec fn spec_utf8_lossy(bytes: Seq<u8>) -> Seq<char>;

/// `String::from_utf8_lossy`, owned: the result is the named decoding of
/// the bytes.
#[verifier::external_body]
fn utf8_lossy(bytes: &[u8]) -> (r: String)
    ensures
        r@ == spec_utf8_lossy(bytes@),
{
    String::from_utf8_lossy(bytes).into_owned()
}

/// The value of an attribute, by its `AttributeType` code: `FLOAT` (1),
/// `INT` (2), `STRING` (3), `TENSOR` (4), `FLOATS` (6), `INTS` (7) and
/// `STRINGS` (8) give their field (absent scalars count as zero or empty);
/// every other type, and a `TENSOR` without a tensor, gives `Null`.
pub open spec fn spec_attr_value(a: AttributeRecord) -> AttrView {
    match a.attr_type {
        Some(code) => if code == 1 {
            AttrView::Float(
                match a.f {
                    Some(f) => f,
                    None => 0,
                },
            )
        } else if code == 2 {
            AttrView::Int(
                match a.i {
                    Some(i) => i,
                    None => 0,
                },
            )
        } else if code == 3 {
            AttrView::Text(
                match a.s {
                    Some(b) => spec_utf8_lossy(b@),
                    None => Seq::empty(),
                },
            )
        } else if code == 4 {
            match a.t {
                Some(t) => AttrView::Tensor {
                    tensor_name: spec_str_or_empty(t.name),
                    data_type: match t.data_type {
                        Some(d) => d,
                        None => 0,
                    },
                    dims: t.dims@,
                },
                None => AttrView::Null,
            }
        } else if code == 6 {
            AttrView::Floats(a.floats@)
        } else if code == 7 {
            AttrView::Ints(a.ints@)
        } else if code == 8 {
            AttrView::Texts(a.strings@.map_values(|b: Vec<u8>| spec_utf8_lossy(b@)))
        } else {
            AttrView::Null
        },
        None => AttrView::Null,
    }
}

/// The value of an attribute (see [`spec_attr_value`]).
pub fn attr_value(attr: &AttributeRecord) -> (r: AttrValue)
    ensures
        r@ == spec_attr_value(*attr),
{
    let code = match attr.attr_type {
        Some(c) => c,
        None => return AttrValue::Null,
    };
    if code == 1 {
        AttrValue::Float(
            match attr.f {
                Some(f) => f,
                None => 0,
            },
        )
    } else if code == 2 {
        AttrValue::Int(
            match attr.i {
                Some(i) => i,
                None => 0,
            },
        )
    } else if code == 3 {
        match &attr.s {
            Some(b) => AttrValue::Text(utf8_lossy(b.as_slice())),
            None => AttrValue::Text(String::new()),
        }
    } else if code == 4 {
        match &attr.t {
            Some(t) => {
                let dims = t.dims.clone();
                assert(dims@ =~= t.dims@);
                AttrValue::Tensor {
                    tensor_name: str_or_empty(&t.name),
                    data_type: match t.data_type {
                        Some(d) => d,
                        None => 0,
                    },
                    dims,
                }
            },
            None => AttrValue::Null,
        }
    } else if code == 6 {
        let v = attr.floats.clone();
        assert(v@ =~= attr.floats@);
        AttrValue::Floats(v)
    } else if code == 7 {
        let v = attr.ints.clone();
        assert(v@ =~= attr.ints@);
        AttrValue::Ints(v)
    } else if code == 8 {
        let mut v: Vec<String> = Vec::new();
        let mut i: usize = 0;
        while i < attr.strings.len()
            invariant
                i <= attr.strings@.len(),
                strs(v@) == attr.strings@.take(i as int).map_values(|b: Vec<u8>| spec_utf8_lossy(b@)),
            decreases attr.strings@.len() - i,
        {
            let t = utf8_lossy(attr.strings[i].as_slice());
            proof {
                assert(t@ == spec_utf8_lossy(attr.strings@[i as int]@));
                assert(attr.strings@.take(i + 1).map_values(|b: Vec<u8>| spec_utf8_lossy(b@))
                    =~= attr.strings@.take(i as int).map_values(|b: Vec<u8>| spec_utf8_lossy(b@)).push(t@));
                assert(strs(v@.push(t)) =~= strs(v@).push(t@));
            }
            v.push(t);
            i += 1;
        }
        assert(attr.strings@.take(attr.strings@.len() as int) =~= attr.strings@);
        AttrValue::Texts(v)
    } else {
        AttrValue::Null
    }
}

/// The attributes of a node by name; a later attribute replaces an earlier
/// one of the same name, and an absent name is empty.
pub open spec fn spec_attributes(attrs: Seq<AttributeRecord>) -> Map<Seq<char>, AttrView>
    decreases attrs.len(),
{
    if attrs.len() == 0 {
        Map::empty()
    } else {
        spec_attributes(attrs.drop_last()).insert(
            spec_str_or_empty(attrs.last().name),
            spec_attr_value(attrs.last()),
        )
    }
}

fn attributes_of(attrs: &Vec<AttributeRecord>) -> (r: StrMap<AttrValue>)
    ensures
        r@ == spec_attributes(attrs@),
{
    let mut m: StrMap<AttrValue> = StrMap::new();
    let mut i: usize = 0;
    assert(attrs@.take(0) =~= Seq::<AttributeRecord>::empty());
    while i < attrs.len()
        invariant
            i <= attrs@.len(),
            m@ == spec_attributes(attrs@.take(i as int)),
        decreases attrs@.len() - i,
    {
        assert(attrs@.take(i + 1).drop_last() =~= attrs@.take(i as int));
        let k = str_or_empty(&attrs[i].name);
        let v = attr_value(&attrs[i]);
        m.insert(k, v);
        i += 1;
    }
    assert(attrs@.take(attrs@.len() as int) =~= attrs@);
    m
}

// ─── Nodes ──────────────────────────────────────────────────────────────────

/// The id of the node at position `i`: its name, or `<op_type>_<i>` when
/// the name is empty.
pub open spec fn spec_node_id(n: NodeRecord, i: nat) -> Seq<char> {
    if spec_str_or_empty(n.name).len() == 0 {
        spec_str_or_empty(n.op_type) + seq!['_'] + spec_decimal(i)
    } else {
        spec_str_or_empty(n.name)
    }
}

/// The node extracted from the node record at position `i`.
pub open spec fn spec_node(n: NodeRecord, i: nat) -> NodeView {
    NodeView {
        id: spec_node_id(n, i),
        name: spec_str_or_empty(n.name),
        op_type: spec_str_or_empty(n.op_type),
        domain: spec_str_or_empty(n.domain),
        inputs: strs(n.input@),
        outputs: strs(n.output@),
        attributes: spec_attributes(n.attribute@),
        doc_string: spec_str_or_empty(n.doc_string),
        metadata_props: spec_props(n.metadata_props@),
    }
}

/// The nodes extracted from the node records, in order.
pub open spec fn spec_nodes(records: Seq<NodeRecord>) -> Seq<NodeView> {
    Seq::new(records.len(), |i: int| spec_node(records[i], i as nat))
}

/// The node extracted from the record at position `i` (see [`spec_node`]).
pub fn node_from_record(n: &NodeRecord, i: usize) -> (r: OnnxNode)
    ensures
        r@ == spec_node(*n, i as nat),
{
    let name = str_or_empty(&n.name);
    let op_type = str_or_empty(&n.op_type);
    let id = if name.as_str().is_empty() {
        let mut c = chars_of(op_type.as_str());
        c.push('_');
        push_decimal(&mut c, i);
        assert(c@ =~= op_type@ + seq!['_'] + spec_decimal(i as nat));
        string_of(c.as_slice())
    } else {
        name.clone()
    };
    OnnxNode {
        id,
        name,
        op_type,
        domain: str_or_empty(&n.domain),
        inputs: copy_strings(&n.input),
        outputs: copy_strings(&n.output),
        attributes: attributes_of(&n.attribute),
        doc_string: str_or_empty(&n.doc_string),
        metadata_props: metadata_props_to_map(n.metadata_props.as_slice()),
    }
}

// ─── Initializers and value info ────────────────────────────────────────────

/// The initializers by name; a later initializer replaces an earlier one of
/// the same name, and absent fields are empty or zero.
pub open spec fn spec_initializers(inits: Seq<TensorRecord>) -> Map<Seq<char>, (i32, Seq<i64>)>
    decreases inits.len(),
{
    if inits.len() == 0 {
        Map::empty()
    } else {
        let t = inits.last();
        spec_initializers(inits.drop_last()).insert(
            spec_str_or_empty(t.name),
            (
                match t.data_type {
                    Some(d) => d,
                    None => 0,
                },
                t.dims@,
            ),
        )
    }
}

fn initializers_of(inits: &Vec<TensorRecord>) -> (r: StrMap<InitializerMeta>)
    ensures
        r@ == spec_initializers(inits@),
{
    let mut m: StrMap<InitializerMeta> = StrMap::new();
    let mut i: usize = 0;
    assert(inits@.take(0) =~= Seq::<TensorRecord>::empty());
    while i < inits.len()
        invariant
            i <= inits@.len(),
            m@ == spec_initializers(inits@.take(i as int)),
        decreases inits@.len() - i,
    {
        assert(inits@.take(i + 1).drop_last() =~= inits@.take(i as int));
        let t = &inits[i];
        let dims = t.dims.clone();
        assert(dims@ =~= t.dims@);
        let meta = InitializerMeta {
            data_type: match t.data_type {
                Some(d) => d,
                None => 0,
            },
            dims,
        };
        m.insert(str_or_empty(&t.name), meta);
        i += 1;
    }
    assert(inits@.take(inits@.len() as int) =~= inits@);
    m
}

/// The value info of one record.
pub open spec fn spec_value_info(v: ValueInfoRecord) -> ValueInfoView {
    ValueInfoView {
        shape: spec_tensor_shape(v.value_type),
        metadata_props: spec_props(v.metadata_props@),
    }
}

/// `m` with the value info of each record added in order, a later record
/// replacing an earlier one of the same name.
pub open spec fn spec_add_value_infos(m: Map<Seq<char>, ValueInfoView>, vis: Seq<ValueInfoRecord>) -> Map<
    Seq<char>,
    ValueInfoView,
>
    decreases vis.len(),
{
    if vis.len() == 0 {
        m
    } else {
        spec_add_value_infos(m, vis.drop_last()).insert(
            spec_str_or_empty(vis.last().name),
            spec_value_info(vis.last()),
        )
    }
}

/// The value info of a graph: its inputs, then its outputs, then its
/// intermediate values.
pub open spec fn spec_graph_value_info(g: GraphRecord) -> Map<Seq<char>, ValueInfoView> {
    spec_add_value_infos(
        spec_add_value_infos(spec_add_value_infos(Map::empty(), g.input@), g.output@),
        g.value_info@,
    )
}

fn add_value_infos(m: &mut StrMap<ValueInfoMeta>, vis: &Vec<ValueInfoRecord>)
    ensures
        final(m)@ == spec_add_value_infos(old(m)@, vis@),
{
    let ghost m0 = m@;
    let mut i: usize = 0;
    assert(vis@.take(0) =~= Seq::<ValueInfoRecord>::empty());
    while i < vis.len()
        invariant
            i <= vis@.len(),
            m@ == spec_add_value_infos(m0, vis@.take(i as int)),
        decreases vis@.len() - i,
    {
        assert(vis@.take(i + 1).drop_last() =~= vis@.take(i as int));
        let v = &vis[i];
        let shape = tensor_shape_from_type_proto(v.value_type.as_ref());
        let meta = ValueInfoMeta {
            shape,
            metadata_props: metadata_props_to_map(v.metadata_props.as_slice()),
        };
        assert(meta@ == spec_value_info(*v));
        m.insert(str_or_empty(&v.name), meta);
        i += 1;
    }
    assert(vis@.take(vis@.len() as int) =~= vis@);
}

// ─── The bundle ─────────────────────────────────────────────────────────────

/// The opset imports of a model.
pub open spec fn spec_opsets(os: Seq<OpsetRecord>) -> Seq<(Seq<char>, i64)> {
    os.map_values(
        |o: OpsetRecord|
            (
                spec_str_or_empty(o.domain),
                match o.version {
                    Some(v) => v,
                    None => 0,
                },
            ),
    )
}

/// The model-level metadata of a model record; absent fields are empty or
/// zero.
pub open spec fn spec_model_metadata(m: ModelRecord) -> MetadataView {
    MetadataView {
        ir_version: match m.ir_version {
            Some(v) => v,
            None => 0,
        },
        producer_name: spec_str_or_empty(m.producer_name),
        producer_version: spec_str_or_empty(m.producer_version),
        domain: spec_str_or_empty(m.domain),
        model_version: match m.model_version {
            Some(v) => v,
            None => 0,
        },
        doc_string: spec_str_or_empty(m.doc_string),
        metadata_props: spec_props(m.metadata_props@),
        opset_import: spec_opsets(m.opset_import@),
    }
}

/// The bundle extracted from a model record with graph `g`.
pub open spec fn spec_bundle(m: ModelRecord, g: GraphRecord) -> BundleView {
    BundleView {
        graph: spec_nodes(g.node@),
        graph_metadata: spec_props(g.metadata_props@),
        model_metadata: spec_model_metadata(m),
        initializers: spec_initializers(g.initializer@),
        value_info: spec_graph_value_info(g),
    }
}

fn model_metadata_of(model: &ModelRecord) -> (r: ModelMetadata)
    ensures
        r@ == spec_model_metadata(*model),
{
    let mut opsets: Vec<OpsetEntry> = Vec::new();
    let mut i: usize = 0;
    while i < model.opset_import.len()
        invariant
            i <= model.opset_import@.len(),
            opsets@.map_values(|o: OpsetEntry| o@) == spec_opsets(model.opset_import@.take(i as int)),
        decreases model.opset_import@.len() - i,
    {
        let o = &model.opset_import[i];
        let e = OpsetEntry {
            domain: str_or_empty(&o.domain),
            version: match o.version {
                Some(v) => v,
                None => 0,
            },
        };
        proof {
            assert(spec_opsets(model.opset_import@.take(i + 1)) =~= spec_opsets(model.opset_import@.take(i as int)).push(e@));
            assert(opsets@.push(e).map_values(|o: OpsetEntry| o@) =~= opsets@.map_values(|o: OpsetEntry| o@).push(e@));
        }
        opsets.push(e);
        i += 1;
    }
    assert(model.opset_import@.take(model.opset_import@.len() as int) =~= model.opset_import@);
    ModelMetadata {
        ir_version: match model.ir_version {
            Some(v) => v,
            None => 0,
        },
        producer_name: str_or_empty(&model.producer_name),
        producer_version: str_or_empty(&model.producer_version),
        domain: str_or_empty(&model.domain),
        model_version: match model.model_version {
            Some(v) => v,
            None => 0,
        },
        doc_string: str_or_empty(&model.doc_string),
        metadata_props: metadata_props_to_map(model.metadata_props.as_slice()),
        opset_import: opsets,
    }
}

/// Extracts the graph nodes, initializer and value-info metadata, and
/// model metadata of a decoded ONNX model; a model without a graph is an
/// error.
pub fn bundle_from_model(model: &ModelRecord) -> (r: Result<OnnxBundle, OnnxError>)
    ensures
        match (model.graph, r) {
            (Some(g), Ok(b)) => b@ == spec_bundle(*model, g),
            (None, Err(e)) => e is MissingGraph,
            _ => false,
        },
{
    let g = match &model.graph {
        Some(g) => g,
        None => return Err(OnnxError::MissingGraph),
    };
    let initializers = initializers_of(&g.initializer);
    let mut value_info: StrMap<ValueInfoMeta> = StrMap::new();
    add_value_infos(&mut value_info, &g.input);
    add_value_infos(&mut value_info, &g.output);
    add_value_infos(&mut value_info, &g.value_info);
    let mut graph: Vec<OnnxNode> = Vec::new();
    let mut i: usize = 0;
    while i < g.node.len()
        invariant
            i <= g.node@.len(),
            nodes_view(graph@) == spec_nodes(g.node@).take(i as int),
        decreases g.node@.len() - i,
    {
        let n = node_from_record(&g.node[i], i);
        proof {
            assert(nodes_view(graph@.push(n)) =~= nodes_view(graph@).push(n@));
            assert(spec_nodes(g.node@)[i as int] == spec_node(g.node@[i as int], i as nat));
            assert(spec_nodes(g.node@).take(i + 1) =~= spec_nodes(g.node@).take(i as int).push(n@));
        }
        graph.push(n);
        i += 1;
    }
    assert(spec_nodes(g.node@).take(g.node@.len() as int) =~= spec_nodes(g.node@));
    let model_metadata = model_metadata_of(model);
    let graph_metadata = metadata_props_to_map(g.metadata_props.as_slice());
    Ok(OnnxBundle { graph, graph_metadata, model_metadata, initializers, value_info })
}

proof fn lemma_decimal_nonempty(n: nat)
    ensures
        spec_decimal(n).len() > 0,
    decreases n,
{
    if n >= 10 {
        lemma_decimal_nonempty(n / 10);
    }
}

/// Every extracted node has a non-empty id, which is its name whenever
/// the name is non-empty.
pub proof fn lemma_node_ids_nonempty(records: Seq<NodeRecord>)
    ensures
        forall|i: int| 0 <= i < records.len() ==> (#[trigger] spec_nodes(records)[i]).id.len() > 0,
        forall|i: int| 0 <= i < records.len() && spec_nodes(records)[i].name.len() > 0
            ==> (#[trigger] spec_nodes(records)[i]).id == spec_nodes(records)[i].name,
{
    assert forall|i: int| 0 <= i < records.len() implies (#[trigger] spec_nodes(records)[i]).id.len() > 0 by {
        lemma_decimal_nonempty(i as nat);
    }
}

/// An optional string field is read as its string, and as the empty string
/// when absent.
pub open spec fn reads_opt_str(field: Option<String>, value: Seq<char>) -> bool {
    match field {
        Some(s) => value == s@,
        None => value.len() == 0,
    }
}

/// Each extracted node keeps its record's name, op type, domain and doc
/// string (empty where the record has none) and its inputs and outputs in
/// order; its id is its name, or `<op_type>_<position>` when the name is
/// empty.
pub proof fn lemma_node_fields(records: Seq<NodeRecord>)
    ensures
        spec_nodes(records).len() == records.len(),
        forall|i: int| 0 <= i < records.len() ==> {
            let n = #[trigger] spec_nodes(records)[i];
            let r = records[i];
            &&& reads_opt_str(r.name, n.name)
            &&& reads_opt_str(r.op_type, n.op_type)
            &&& reads_opt_str(r.domain, n.domain)
            &&& reads_opt_str(r.doc_string, n.doc_string)
            &&& n.inputs.len() == r.input@.len()
            &&& forall|k: int| 0 <= k < r.input@.len() ==> n.inputs[k] == (#[trigger] r.input@[k])@
            &&& n.outputs.len() == r.output@.len()
            &&& forall|k: int| 0 <= k < r.output@.len() ==> n.outputs[k] == (#[trigger] r.output@[k])@
            &&& n.name.len() > 0 ==> n.id == n.name
            &&& n.name.len() == 0 ==> n.id == n.op_type + seq!['_'] + spec_decimal(i as nat)
        },
{
}

} // verus!
