use vstd::prelude::*;

verus! {

broadcast use vstd::std_specs::vec::axiom_vec_index_decreases;

/// The canonical pivot model: every bridge parses into and serializes out of
/// this one tree shape. `Float` carries the canonical text of a finite
/// 64-bit float (as the scalar inference engine normalizes it), so that the
/// verified core never computes on floating point itself.
#[derive(Debug, PartialEq)]
pub enum Value {
    Null,
    Boolean(bool),
    Integer(i64),
    /// Canonical text of a finite 64-bit float.
    Float(String),
    Text(String),
    Sequence(Vec<Value>),
    /// Ordered key/value entries; well-formed values keep the keys unique,
    /// and insertion order is preserved for round-trip fidelity.
    Mapping(Vec<(String, Value)>),
}

/// The error kinds a conversion reports. A conversion either completes or
/// fails atomically; no partial output is ever produced.
#[derive(Debug, Clone, Copy, PartialEq, Eq, Structural)]
pub enum StructuralError {
    /// Input bytes are not valid text where text is required.
    Encoding,
    /// Grammar violation, with the record or character index where it was
    /// found.
    Malformed(usize),
    /// The serializer was given a value whose shape the target format cannot
    /// represent.
    ShapeMismatch,
    /// The document has no single usable root.
    UnsupportedRoot,
}

/// The mathematical shape of a canonical value, used by every contract.
pub ghost enum ValModel {
    Null,
    Boolean(bool),
    Integer(int),
    Float(Seq<char>),
    Text(Seq<char>),
    Sequence(Seq<ValModel>),
    Mapping(Seq<(Seq<char>, ValModel)>),
}

pub open spec fn value_view(v: Value) -> ValModel
    decreases v,
{
    match v {
        Value::Null => ValModel::Null,
        Value::Boolean(b) => ValModel::Boolean(b),
        Value::Integer(i) => ValModel::Integer(i as int),
        Value::Float(t) => ValModel::Float(t@),
        Value::Text(s) => ValModel::Text(s@),
        Value::Sequence(items) => ValModel::Sequence(
            Seq::new(
                items@.len(),
                |i: int|
                    if 0 <= i < items@.len() {
                        value_view(items@[i])
                    } else {
                        ValModel::Null
                    },
            ),
        ),
        Value::Mapping(entries) => ValModel::Mapping(
            Seq::new(
                entries@.len(),
                |i: int|
                    if 0 <= i < entries@.len() {
                        (entries@[i].0@, value_view(entries@[i].1))
                    } else {
                        (Seq::empty(), ValModel::Null)
                    },
            ),
        ),
    }
}

impl View for Value {
    type V = ValModel;

    open spec fn view(&self) -> ValModel {
        value_view(*self)
    }
}

/// Whether a key occurs in a model map's entries.
pub open spec fn model_map_has_key(entries: Seq<(Seq<char>, ValModel)>, key: Seq<char>) -> bool {
    exists|i: int| 0 <= i < entries.len() && entries[i].0 == key
}

/// Index of the first entry with the given key, if any.
pub open spec fn model_map_index_of(entries: Seq<(Seq<char>, ValModel)>, key: Seq<char>) -> int
    decreases entries.len(),
{
    if entries.len() == 0 {
        -1
    } else if entries[0].0 == key {
        0
    } else {
        let rest = model_map_index_of(entries.drop_first(), key);
        if rest == -1 {
            -1
        } else {
            rest + 1
        }
    }
}

/// Value stored under a key in a model map (first occurrence).
pub open spec fn model_map_get(entries: Seq<(Seq<char>, ValModel)>, key: Seq<char>) -> Option<
    ValModel,
>
    decreases entries.len(),
{
    if entries.len() == 0 {
        None
    } else if entries[0].0 == key {
        Some(entries[0].1)
    } else {
        model_map_get(entries.drop_first(), key)
    }
}

/// No two entries share a key.
pub open spec fn model_keys_unique(entries: Seq<(Seq<char>, ValModel)>) -> bool {
    forall|i: int, j: int|
        0 <= i < j < entries.len() ==> entries[i].0 != entries[j].0
}

/// Well-formed canonical values: floats are finite and map keys are unique,
/// at every level of the tree.
pub open spec fn model_wf(v: ValModel) -> bool
    decreases v,
{
    match v {
        ValModel::Null => true,
        ValModel::Boolean(_) => true,
        ValModel::Integer(i) => i64::MIN <= i <= i64::MAX,
        ValModel::Float(t) => crate::scalar::float_text_wf(t),
        ValModel::Text(_) => true,
        ValModel::Sequence(items) => forall|i: int|
            0 <= i < items.len() ==> model_wf(#[trigger] items[i]),
        ValModel::Mapping(entries) => model_keys_unique(entries) && forall|i: int|
            0 <= i < entries.len() ==> model_wf(#[trigger] entries[i].1),
    }
}

/// The model of an ordered entry list.
pub open spec fn entries_view(entries: Seq<(String, Value)>) -> Seq<(Seq<char>, ValModel)> {
    Seq::new(entries.len(), |i: int| (entries[i].0@, value_view(entries[i].1)))
}

/// The models of a list of values.
pub open spec fn values_view(items: Seq<Value>) -> Seq<ValModel> {
    Seq::new(items.len(), |i: int| value_view(items[i]))
}

/// The view of a built sequence value is the sequence of its items' views.
pub proof fn lemma_sequence_view(items: Vec<Value>)
    ensures
        value_view(Value::Sequence(items)) == ValModel::Sequence(values_view(items@)),
{
    assert(value_view(Value::Sequence(items))->Sequence_0 =~= values_view(items@));
}

/// The view of a built mapping value is the view of its entry list.
pub proof fn lemma_mapping_view(entries: Vec<(String, Value)>)
    ensures
        value_view(Value::Mapping(entries)) == ValModel::Mapping(entries_view(entries@)),
{
    assert(value_view(Value::Mapping(entries))->Mapping_0 =~= entries_view(entries@));
}

/// Plain map insertion at the model level: an existing key is overwritten in
/// place, a new key is appended.
pub open spec fn model_map_insert(
    entries: Seq<(Seq<char>, ValModel)>,
    key: Seq<char>,
    value: ValModel,
) -> Seq<(Seq<char>, ValModel)> {
    if model_map_has_key(entries, key) {
        entries.update(model_map_index_of(entries, key), (key, value))
    } else {
        entries.push((key, value))
    }
}

/// Collapsing insertion at the model level: a repeated key folds its values
/// into a sequence.
pub open spec fn model_collapse_insert(
    entries: Seq<(Seq<char>, ValModel)>,
    key: Seq<char>,
    value: ValModel,
) -> Seq<(Seq<char>, ValModel)> {
    if model_map_has_key(entries, key) {
        let i = model_map_index_of(entries, key);
        match entries[i].1 {
            ValModel::Sequence(items) => entries.update(
                i,
                (key, ValModel::Sequence(items.push(value))),
            ),
            _ => entries.update(i, (key, ValModel::Sequence(seq![entries[i].1, value]))),
        }
    } else {
        entries.push((key, value))
    }
}

/// Plain insertion keeps keys unique and values well-formed.
pub proof fn lemma_map_insert_wf(
    entries: Seq<(Seq<char>, ValModel)>,
    key: Seq<char>,
    value: ValModel,
)
    requires
        model_keys_unique(entries),
        forall|j: int| 0 <= j < entries.len() ==> model_wf(#[trigger] entries[j].1),
        model_wf(value),
    ensures
        model_keys_unique(model_map_insert(entries, key, value)),
        forall|j: int|
            0 <= j < model_map_insert(entries, key, value).len() ==> model_wf(
                #[trigger] model_map_insert(entries, key, value)[j].1,
            ),
{
    lemma_map_index_of(entries, key);
    let out = model_map_insert(entries, key, value);
    if model_map_has_key(entries, key) {
        let ix = model_map_index_of(entries, key);
        assert(entries[ix].0 == key);
        assert forall|i: int, j: int| 0 <= i < j < out.len() implies out[i].0 != out[j].0 by {
            assert(out[i].0 == entries[i].0);
            assert(out[j].0 == entries[j].0);
        }
    } else {
        assert forall|i: int, j: int| 0 <= i < j < out.len() implies out[i].0 != out[j].0 by {
            if j == entries.len() {
                assert(out[i].0 == entries[i].0);
                assert(!(entries[i].0 == key));
            }
        }
    }
}

/// `model_map_index_of` returns either -1 (key absent) or the
/// first entry holding the key.
pub proof fn lemma_map_index_of(entries: Seq<(Seq<char>, ValModel)>, key: Seq<char>)
    ensures
        model_map_has_key(entries, key) <==> 0 <= model_map_index_of(entries, key)
            < entries.len(),
        model_map_has_key(entries, key) ==> {
            let i = model_map_index_of(entries, key);
            entries[i].0 == key && model_map_get(entries, key) == Some(entries[i].1)
                && forall|j: int| 0 <= j < i ==> entries[j].0 != key
        },
        !model_map_has_key(entries, key) ==> model_map_index_of(entries, key) == -1
            && model_map_get(entries, key) is None,
    decreases entries.len(),
{
    if entries.len() > 0 && entries[0].0 != key {
        lemma_map_index_of(entries.drop_first(), key);
        assert forall|i: int| 0 <= i < entries.len() && entries[i].0 == key implies 1 <= i by {
        }
        assert(forall|i: int|
            1 <= i < entries.len() ==> entries.drop_first()[i - 1] == entries[i]);
    }
}

/// Finds the index of the first entry with the given key.
fn find_key(entries: &Vec<(String, Value)>, key: &str) -> (r: Option<usize>)
    ensures
        match r {
            Some(i) => i < entries@.len() && model_map_index_of(entries_view(entries@), key@)
                == i as int,
            None => !model_map_has_key(entries_view(entries@), key@),
        },
{
    proof {
        lemma_map_index_of(entries_view(entries@), key@);
    }
    let n = entries.len();
    let mut i: usize = 0;
    while i < n
        invariant
            n == entries@.len(),
            i <= n,
            forall|j: int| 0 <= j < i ==> entries_view(entries@)[j].0 != key@,
        decreases n - i,
    {
        if crate::text::str_eq(entries[i].0.as_str(), key) {
            proof {
                let es = entries_view(entries@);
                lemma_map_index_of(es, key@);
                assert(es[i as int].0 == key@);
                assert(model_map_has_key(es, key@));
            }
            return Some(i);
        }
        assert(entries_view(entries@)[i as int].0 != key@);
        i = i + 1;
    }
    None
}

/// Looks a key up in an ordered entry list (first match).
pub fn map_get<'a>(entries: &'a Vec<(String, Value)>, key: &str) -> (r: Option<&'a Value>)
    ensures
        match r {
            Some(v) => model_map_get(entries_view(entries@), key@) == Some(v@),
            None => model_map_get(entries_view(entries@), key@) is None,
        },
{
    proof {
        lemma_map_index_of(entries_view(entries@), key@);
    }
    match find_key(entries, key) {
        Some(i) => Some(&entries[i].1),
        None => None,
    }
}

/// Plain ordered-map insertion: an existing key is overwritten in place (its
/// position is preserved); a new key is appended at the end.
pub fn map_insert(entries: &mut Vec<(String, Value)>, key: String, value: Value)
    ensures
        entries_view(final(entries)@) == model_map_insert(
            entries_view(old(entries)@),
            key@,
            value@,
        ),
{
    proof {
        lemma_map_index_of(entries_view(old(entries)@), key@);
    }
    let ghost old_entries: Seq<(String, Value)> = entries@;
    let ghost val_model: ValModel = value@;
    let ghost key_model: Seq<char> = key@;
    match find_key(entries, key.as_str()) {
        Some(i) => {
            let ghost gi = i as int;
            entries.set(i, (key, value));
            proof {
                let oe = entries_view(old_entries);
                let ne = entries_view(entries@);
                assert forall|j: int| 0 <= j < ne.len() implies ne[j] == oe.update(
                    gi,
                    (key_model, val_model),
                )[j] by {
                    if j != gi {
                        assert(entries@[j] == old_entries[j]);
                    }
                }
                assert(ne =~= oe.update(gi, (key_model, val_model)));
            }
        },
        None => {
            entries.push((key, value));
            proof {
                let oe = entries_view(old_entries);
                let ne = entries_view(entries@);
                assert forall|j: int| 0 <= j < ne.len() implies ne[j] == oe.push(
                    (key_model, val_model),
                )[j] by {
                    if j < oe.len() {
                        assert(entries@[j] == old_entries[j]);
                    }
                }
                assert(ne =~= oe.push((key_model, val_model)));
            }
        },
    }
}

/// The child-merge step of the markup bridge: repeated keys collapse into a
/// sequence instead of overwriting. If the key is absent the entry is
/// appended; if it holds a non-sequence value `u`, the entry becomes
/// `Sequence([u, value])`; if it already holds a sequence, `value` is
/// appended to it. This is how same-named sibling elements become an array
/// without any schema declaration.
pub fn collapse_insert(entries: &mut Vec<(String, Value)>, key: String, value: Value)
    ensures
        entries_view(final(entries)@) == model_collapse_insert(
            entries_view(old(entries)@),
            key@,
            value@,
        ),
{
    proof {
        lemma_map_index_of(entries_view(old(entries)@), key@);
    }
    let ghost old_entries: Seq<(String, Value)> = entries@;
    let ghost val_model: ValModel = value@;
    match find_key(entries, key.as_str()) {
        Some(i) => {
            let ghost gi = i as int;
            let ghost old_model: ValModel = entries_view(old_entries)[gi].1;
            let (k, existing) = entries.remove(i);
            proof {
                assert(value_view(existing) == old_model);
                assert(k@ == entries_view(old_entries)[gi].0);
            }
            let replacement: Value = match existing {
                Value::Sequence(mut items) => {
                    let ghost items0: Seq<Value> = items@;
                    items.push(value);
                    proof {
                        let vs = value_view(Value::Sequence(items));
                        assert(vs is Sequence);
                        let s = vs->Sequence_0;
                        assert(old_model is Sequence);
                        let m = old_model->Sequence_0;
                        assert(s =~= m.push(val_model));
                        assert(vs == ValModel::Sequence(m.push(val_model)));
                    }
                    Value::Sequence(items)
                },
                other => {
                    let mut items: Vec<Value> = Vec::new();
                    items.push(other);
                    items.push(value);
                    proof {
                        let vs = value_view(Value::Sequence(items));
                        assert(vs is Sequence);
                        let s = vs->Sequence_0;
                        assert(s =~= seq![old_model, val_model]);
                        assert(vs == ValModel::Sequence(seq![old_model, val_model]));
                        assert(!(old_model is Sequence));
                    }
                    Value::Sequence(items)
                },
            };
            let ghost rep_model: ValModel = replacement@;
            entries.insert(i, (k, replacement));
            proof {
                let oe = entries_view(old_entries);
                let ne = entries_view(entries@);
                assert(entries@ =~= old_entries.update(gi, entries@[gi]));
                assert forall|j: int| 0 <= j < ne.len() implies ne[j] == oe.update(
                    gi,
                    (key@, rep_model),
                )[j] by {
                    if j != gi {
                        assert(entries@[j] == old_entries[j]);
                    } else {
                        assert(k@ == key@);
                    }
                }
                assert(ne =~= oe.update(gi, (key@, rep_model)));
            }
        },
        None => {
            entries.push((key, value));
            proof {
                let oe = entries_view(old_entries);
                let ne = entries_view(entries@);
                assert forall|j: int| 0 <= j < ne.len() implies ne[j] == oe.push(
                    (key@, val_model),
                )[j] by {
                    if j < oe.len() {
                        assert(entries@[j] == old_entries[j]);
                    }
                }
                assert(ne =~= oe.push((key@, val_model)));
            }
        },
    }
}

} // verus!
