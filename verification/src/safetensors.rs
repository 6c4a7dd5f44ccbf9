//! The header of a `model.safetensors` file: an 8-byte little-endian length,
//! then a JSON object that describes each tensor by name (its `dtype` and
//! `shape`), with an optional `__metadata__` member.

use vstd::prelude::*;
use crate::json::{JsonValue, json_as_i64, json_get, spec_as_i64, spec_get};
use crate::text::{
    chars_of, compare_chars, seq_lt, str_eq, Cmp, lemma_seq_lt_irreflexive, lemma_seq_lt_total,
    lemma_seq_lt_transitive,
};

verus! {

// ─── The length prefix ──────────────────────────────────────────────────────

/// The value of eight bytes read as a little-endian unsigned integer.
pub open spec fn spec_le_u64(b: Seq<u8>) -> nat {
    (b[0] + 0x100 * b[1] + 0x1_0000 * b[2] + 0x100_0000 * b[3] + 0x1_0000_0000 * b[4]
        + 0x100_0000_0000 * b[5] + 0x1_0000_0000_0000 * b[6] + 0x100_0000_0000_0000 * b[7]) as nat
}

/// The length of the JSON header: the first eight bytes of the file as a
/// little-endian `u64`, or `None` when the file is shorter than that.
pub fn header_len(prefix: &[u8]) -> (r: Option<u64>)
    ensures
        prefix@.len() < 8 <==> r is None,
        r matches Some(n) ==> n == spec_le_u64(prefix@),
{
    if prefix.len() < 8 {
        return None;
    }
    let x7: u64 = prefix[7] as u64;
    let x6: u64 = prefix[6] as u64 + 0x100 * x7;
    let x5: u64 = prefix[5] as u64 + 0x100 * x6;
    let x4: u64 = prefix[4] as u64 + 0x100 * x5;
    let x3: u64 = prefix[3] as u64 + 0x100 * x4;
    let x2: u64 = prefix[2] as u64 + 0x100 * x3;
    let x1: u64 = prefix[1] as u64 + 0x100 * x2;
    let x0: u64 = prefix[0] as u64 + 0x100 * x1;
    Some(x0)
}

// ─── The tensors ────────────────────────────────────────────────────────────

/// A tensor described in the header.
pub struct SafeTensorMeta {
    pub name: String,
    pub dtype: String,
    pub shape: Vec<i64>,
}

pub struct TensorView {
    pub name: Seq<char>,
    pub dtype: Seq<char>,
    pub shape: Seq<i64>,
}

impl View for SafeTensorMeta {
    type V = TensorView;

    open spec fn view(&self) -> TensorView {
        TensorView { name: self.name@, dtype: self.dtype@, shape: self.shape@ }
    }
}

/// The items of an array that are `i64` numbers (`filter_map(as_i64)`).
pub open spec fn spec_i64s_of(items: Seq<JsonValue>) -> Seq<i64>
    decreases items.len(),
{
    if items.len() == 0 {
        Seq::empty()
    } else {
        match spec_as_i64(items.last()) {
            Some(v) => spec_i64s_of(items.drop_last()).push(v),
            None => spec_i64s_of(items.drop_last()),
        }
    }
}

/// The tensor described by member `name` with value `v`: `v.dtype` if it is
/// a string, else `unknown`; the `i64` items of `v.shape` if it is an
/// array, else no dimension.
pub open spec fn spec_tensor(name: Seq<char>, v: JsonValue) -> TensorView {
    TensorView {
        name,
        dtype: match spec_get(v, "dtype"@) {
            JsonValue::Str(s) => s@,
            _ => "unknown"@,
        },
        shape: match spec_get(v, "shape"@) {
            JsonValue::Array(items) => spec_i64s_of(items@),
            _ => Seq::empty(),
        },
    }
}

/// The tensors of the header's members by name: every member but
/// `__metadata__`, a later member replacing an earlier one of the same
/// name.
pub open spec fn spec_tensor_map(members: Seq<(String, JsonValue)>) -> Map<Seq<char>, TensorView>
    decreases members.len(),
{
    if members.len() == 0 {
        Map::empty()
    } else {
        let m = members.last();
        if m.0@ == "__metadata__"@ {
            spec_tensor_map(members.drop_last())
        } else {
            spec_tensor_map(members.drop_last()).insert(m.0@, spec_tensor(m.0@, m.1))
        }
    }
}

/// `s` lists the tensors of `m` by strictly increasing name.
pub open spec fn lists_tensors(s: Seq<TensorView>, m: Map<Seq<char>, TensorView>) -> bool {
    &&& forall|i: int, j: int| 0 <= i < j < s.len() ==> seq_lt(#[trigger] s[i].name, #[trigger] s[j].name)
    &&& forall|i: int| 0 <= i < s.len() ==> m.contains_key(#[trigger] s[i].name) && m[s[i].name] == s[i]
    &&& forall|k: Seq<char>| #[trigger] m.contains_key(k) ==> exists|i: int| 0 <= i < s.len() && s[i].name == k
}

/// The view of each tensor.
pub open spec fn tensors_view(ts: Seq<SafeTensorMeta>) -> Seq<TensorView> {
    ts.map_values(|t: SafeTensorMeta| t@)
}

fn i64s_of(items: &Vec<JsonValue>) -> (r: Vec<i64>)
    ensures
        r@ == spec_i64s_of(items@),
{
    let mut r: Vec<i64> = Vec::new();
    let mut i: usize = 0;
    while i < items.len()
        invariant
            i <= items@.len(),
            r@ == spec_i64s_of(items@.take(i as int)),
        decreases items@.len() - i,
    {
        assert(items@.take(i + 1).drop_last() =~= items@.take(i as int));
        match json_as_i64(&items[i]) {
            Some(v) => r.push(v),
            None => {},
        }
        i += 1;
    }
    assert(items@.take(items@.len() as int) =~= items@);
    r
}

/// The tensor described by member `name` with value `v` (see
/// [`spec_tensor`]).
fn tensor_of(name: &String, v: &JsonValue) -> (r: SafeTensorMeta)
    ensures
        r@ == spec_tensor(name@, *v),
{
    let dtype = match json_get(v, "dtype") {
        JsonValue::Str(s) => s.clone(),
        _ => String::from_str("unknown"),
    };
    let shape = match json_get(v, "shape") {
        JsonValue::Array(items) => i64s_of(items),
        _ => Vec::new(),
    };
    proof {
        reveal_strlit("dtype");
        reveal_strlit("shape");
    }
    SafeTensorMeta { name: name.clone(), dtype, shape }
}

/// The index of the first tensor whose name is not below `name`.
fn tensor_slot(ts: &Vec<SafeTensorMeta>, name: &Vec<char>) -> (p: usize)
    ensures
        p <= ts@.len(),
        forall|i: int| 0 <= i < p ==> seq_lt(#[trigger] ts@[i].name@, name@),
        p < ts@.len() ==> !seq_lt(ts@[p as int].name@, name@),
{
    let mut i: usize = 0;
    while i < ts.len()
        invariant
            i <= ts@.len(),
            forall|k: int| 0 <= k < i ==> seq_lt(#[trigger] ts@[k].name@, name@),
        decreases ts@.len() - i,
    {
        let c = chars_of(ts[i].name.as_str());
        match compare_chars(c.as_slice(), name.as_slice()) {
            Cmp::Less => {
                i += 1;
            },
            _ => {
                return i;
            },
        }
    }
    i
}

proof fn lemma_above_slot(s: Seq<TensorView>, p: int, key: Seq<char>)
    requires
        forall|i: int, j: int| 0 <= i < j < s.len() ==> seq_lt(#[trigger] s[i].name, #[trigger] s[j].name),
        0 <= p <= s.len(),
        p < s.len() ==> !seq_lt(s[p].name, key),
    ensures
        forall|i: int| p < i < s.len() ==> seq_lt(key, #[trigger] s[i].name),
        p < s.len() && s[p].name != key ==> seq_lt(key, s[p].name),
{
    if p < s.len() {
        lemma_seq_lt_total(s[p].name, key);
        assert forall|i: int| p < i < s.len() implies seq_lt(key, #[trigger] s[i].name) by {
            assert(seq_lt(s[p].name, s[i].name));
            if s[p].name != key {
                lemma_seq_lt_transitive(key, s[p].name, s[i].name);
            }
        }
    }
}

/// Stores `t` among the tensors sorted by name, replacing the tensor with
/// its name.
fn put_tensor(ts: &mut Vec<SafeTensorMeta>, t: SafeTensorMeta, Ghost(m): Ghost<Map<Seq<char>, TensorView>>)
    requires
        lists_tensors(tensors_view(old(ts)@), m),
    ensures
        lists_tensors(tensors_view(final(ts)@), m.insert(t@.name, t@)),
{
    let ghost s = tensors_view(ts@);
    let ghost x = t@;
    let ghost m2 = m.insert(x.name, x);
    let nc = chars_of(t.name.as_str());
    let p = tensor_slot(ts, &nc);
    proof {
        lemma_above_slot(s, p as int, x.name);
        lemma_seq_lt_irreflexive(x.name);
        assert forall|i: int| 0 <= i < p implies seq_lt(#[trigger] s[i].name, x.name) by {
            assert(s[i].name == ts@[i].name@);
        }
    }
    if p < ts.len() && ts[p].name == t.name {
        let _ = ts.remove(p);
        ts.insert(p, t);
        let ghost u = tensors_view(ts@);
        proof {
            assert(u =~= s.update(p as int, x));
            assert forall|i: int, j: int| 0 <= i < j < u.len() implies seq_lt(#[trigger] u[i].name, #[trigger] u[j].name) by {
                assert(seq_lt(s[i].name, s[j].name));
            }
            assert forall|i: int| 0 <= i < u.len() implies m2.contains_key(#[trigger] u[i].name) && m2[u[i].name] == u[i] by {
                if i != p {
                    assert(u[i] == s[i]);
                }
            }
            assert forall|k: Seq<char>| #[trigger] m2.contains_key(k) implies exists|i: int| 0 <= i < u.len() && u[i].name == k by {
                if k == x.name {
                    assert(u[p as int].name == k);
                } else {
                    let i = choose|i: int| 0 <= i < s.len() && s[i].name == k;
                    assert(u[i].name == k);
                }
            }
        }
    } else {
        ts.insert(p, t);
        let ghost u = tensors_view(ts@);
        proof {
            assert(u =~= s.insert(p as int, x));
            assert forall|i: int, j: int| 0 <= i < j < u.len() implies seq_lt(#[trigger] u[i].name, #[trigger] u[j].name) by {
                if j < p {
                    assert(seq_lt(s[i].name, s[j].name));
                } else if j == p {
                    assert(u[i] == s[i]);
                } else if i == p {
                    assert(u[j] == s[j - 1]);
                } else if i < p {
                    assert(seq_lt(s[i].name, s[j - 1].name));
                } else {
                    assert(seq_lt(s[i - 1].name, s[j - 1].name));
                }
            }
            assert forall|i: int| 0 <= i < u.len() implies m2.contains_key(#[trigger] u[i].name) && m2[u[i].name] == u[i] by {
                if i < p {
                    assert(u[i] == s[i]);
                } else if i > p {
                    assert(u[i] == s[i - 1]);
                }
            }
            assert forall|k: Seq<char>| #[trigger] m2.contains_key(k) implies exists|i: int| 0 <= i < u.len() && u[i].name == k by {
                if k == x.name {
                    assert(u[p as int].name == k);
                } else {
                    let i = choose|i: int| 0 <= i < s.len() && s[i].name == k;
                    if i < p {
                        assert(u[i].name == k);
                    } else {
                        assert(u[i + 1].name == k);
                    }
                }
            }
        }
    }
}

/// The tensors described by a parsed header, ordered by name; `None` when
/// the header is not a JSON object.
pub fn tensors_from_header(header: &JsonValue) -> (r: Option<Vec<SafeTensorMeta>>)
    ensures
        match *header {
            JsonValue::Object(members) => r matches Some(ts) && lists_tensors(
                tensors_view(ts@),
                spec_tensor_map(members@),
            ),
            _ => r is None,
        },
{
    let members = match header {
        JsonValue::Object(members) => members,
        _ => return None,
    };
    let mut ts: Vec<SafeTensorMeta> = Vec::new();
    let mut i: usize = 0;
    assert(members@.take(0) =~= Seq::<(String, JsonValue)>::empty());
    while i < members.len()
        invariant
            i <= members@.len(),
            lists_tensors(tensors_view(ts@), spec_tensor_map(members@.take(i as int))),
        decreases members@.len() - i,
    {
        assert(members@.take(i + 1).drop_last() =~= members@.take(i as int));
        let (key, value) = (&members[i].0, &members[i].1);
        if !str_eq(key.as_str(), "__metadata__") {
            let t = tensor_of(key, value);
            put_tensor(&mut ts, t, Ghost(spec_tensor_map(members@.take(i as int))));
        }
        i += 1;
    }
    assert(members@.take(members@.len() as int) =~= members@);
    Some(ts)
}

/// The `__metadata__` member never becomes a tensor.
pub proof fn lemma_no_metadata_tensor(members: Seq<(String, JsonValue)>)
    ensures
        !spec_tensor_map(members).contains_key("__metadata__"@),
    decreases members.len(),
{
    if members.len() > 0 {
        lemma_no_metadata_tensor(members.drop_last());
    }
}

} // verus!
