//! The mathematical model of a wire value.
//!
//! Every executable value maps to a `CdcModel`, in which strings are
//! character sequences and containers are mathematical sequences.  The
//! codec's contracts and laws are stated over this model.
use vstd::prelude::*;
use vstd::utf8::encode_utf8;

use crate::value::CdcValue;

verus! {

/// The model of a wire value: one variant per wire tag, over sequences
/// and plain values.
pub enum CdcModel {
    /// Tag 0: no value.
    NONE,
    /// Tag 1: a boolean.
    BOOL(bool),
    /// Tag 2: a signed 64-bit integer.
    INTEGER(i64),
    /// Tag 3: a binary64 bit pattern.
    FLOAT(u64),
    /// Tag 4: a string.
    STRING(Seq<char>),
    /// Tag 5: a sequence of values.
    LIST(Seq<CdcModel>),
    /// Tag 6: string-keyed pairs, keys unique.
    MAP(Seq<(Seq<char>, CdcModel)>),
    /// Tag 7: a slice; each slot None or an integer.
    SLICE { start: Option<i64>, stop: Option<i64> },
    /// Tag 8: an item.
    ITEM { id: Seq<char>, category: i32, stage: i32 },
    /// Tag 9: an indexable handle around an item.
    INDEXABLE { id: Seq<char>, category: i32, stage: i32, token: Seq<char>, size: i64 },
    /// Tag 10: a named command.
    COMMAND(Seq<char>),
    /// Tag 11: a callable, as its registry handle.
    CALLABLE(u64),
    /// Tag 12: a typed runtime error.
    ERROR { id: Seq<char>, text: Seq<char>, line: i64 },
    /// Tag 13: a generic type instance.
    TRAIT { id: Seq<char>, args: Seq<CdcModel>, kwargs: Seq<(Seq<char>, CdcModel)> },
    /// Tag 14: a generic object with attributes.
    OBJECT { type_id: Seq<char>, repr: Seq<char>, attributes: Seq<(Seq<char>, CdcModel)> },
    /// Tag 15: an array selector.
    ARRAY {
        project: Box<CdcModel>,
        item: Box<CdcModel>,
        key: Seq<char>,
        index: Seq<i64>,
        selected: bool,
        transformation: Option<Box<CdcModel>>,
    },
    /// Tag 16: a package reference with metadata.
    PACKAGE { reference: Seq<char>, metadata: Seq<(Seq<char>, CdcModel)> },
    /// Tag 17: a two-component vector of bit patterns.
    VEC2D { x: u64, y: u64 },
    /// Tag 18: a three-component vector of bit patterns.
    VEC3D { x: u64, y: u64, z: u64 },
    /// Tag 19: a resource access marker.
    RESOURCE_ACCESS,
    /// Tag 20: an opaque byte string.
    BLOB(Seq<u8>),
}

impl CdcModel {
    /// The one-byte wire tag of this model value.
    pub open spec fn tag(self) -> u8 {
        match self {
            CdcModel::NONE => 0,
            CdcModel::BOOL(_) => 1,
            CdcModel::INTEGER(_) => 2,
            CdcModel::FLOAT(_) => 3,
            CdcModel::STRING(_) => 4,
            CdcModel::LIST(_) => 5,
            CdcModel::MAP(_) => 6,
            CdcModel::SLICE { .. } => 7,
            CdcModel::ITEM { .. } => 8,
            CdcModel::INDEXABLE { .. } => 9,
            CdcModel::COMMAND(_) => 10,
            CdcModel::CALLABLE(_) => 11,
            CdcModel::ERROR { .. } => 12,
            CdcModel::TRAIT { .. } => 13,
            CdcModel::OBJECT { .. } => 14,
            CdcModel::ARRAY { .. } => 15,
            CdcModel::PACKAGE { .. } => 16,
            CdcModel::VEC2D { .. } => 17,
            CdcModel::VEC3D { .. } => 18,
            CdcModel::RESOURCE_ACCESS => 19,
            CdcModel::BLOB(_) => 20,
        }
    }
}

impl CdcValue {
    /// The model of this value.
    pub open spec fn model(self) -> CdcModel
        decreases self,
    {
        match self {
            CdcValue::NONE => CdcModel::NONE,
            CdcValue::BOOL(b) => CdcModel::BOOL(b),
            CdcValue::INTEGER(i) => CdcModel::INTEGER(i),
            CdcValue::FLOAT(bits) => CdcModel::FLOAT(bits),
            CdcValue::STRING(s) => CdcModel::STRING(s@),
            CdcValue::LIST(es) => CdcModel::LIST(model_seq(es@)),
            CdcValue::MAP(ps) => CdcModel::MAP(model_pairs(ps@)),
            CdcValue::SLICE(s) => CdcModel::SLICE { start: s.start, stop: s.stop },
            CdcValue::ITEM(it) => CdcModel::ITEM {
                id: it.id@,
                category: it.category,
                stage: it.stage,
            },
            CdcValue::INDEXABLE(ix) => CdcModel::INDEXABLE {
                id: ix.item.id@,
                category: ix.item.category,
                stage: ix.item.stage,
                token: ix.token@,
                size: ix.size,
            },
            CdcValue::COMMAND(c) => CdcModel::COMMAND(c.name@),
            CdcValue::CALLABLE(h) => CdcModel::CALLABLE(h),
            CdcValue::ERROR(e) => CdcModel::ERROR { id: e.id@, text: e.text@, line: e.line },
            CdcValue::TRAIT(t) => CdcModel::TRAIT {
                id: t.id@,
                args: model_seq(t.args@),
                kwargs: model_pairs(t.kwargs@),
            },
            CdcValue::OBJECT(o) => CdcModel::OBJECT {
                type_id: o.type_id@,
                repr: o.repr@,
                attributes: model_pairs(o.attributes@),
            },
            CdcValue::ARRAY(a) => CdcModel::ARRAY {
                project: Box::new((*a.project).model()),
                item: Box::new((*a.item).model()),
                key: a.key@,
                index: a.index@,
                selected: a.selected,
                transformation: match a.transformation {
                    Some(t) => Some(Box::new((*t).model())),
                    None => None,
                },
            },
            CdcValue::PACKAGE(p) => CdcModel::PACKAGE {
                reference: p.reference@,
                metadata: model_pairs(p.metadata@),
            },
            CdcValue::VEC2D(v) => CdcModel::VEC2D { x: v.x, y: v.y },
            CdcValue::VEC3D(v) => CdcModel::VEC3D { x: v.x, y: v.y, z: v.z },
            CdcValue::RESOURCE_ACCESS => CdcModel::RESOURCE_ACCESS,
            CdcValue::BLOB(b) => CdcModel::BLOB(b@),
        }
    }
}

/// The models of a sequence of values, element by element.
pub open spec fn model_seq(es: Seq<CdcValue>) -> Seq<CdcModel>
    decreases es,
{
    if es.len() == 0 {
        Seq::empty()
    } else {
        seq![es.first().model()] + model_seq(es.drop_first())
    }
}

/// The models of string-keyed pairs, pair by pair.
pub open spec fn model_pairs(ps: Seq<(String, CdcValue)>) -> Seq<(Seq<char>, CdcModel)>
    decreases ps,
{
    if ps.len() == 0 {
        Seq::empty()
    } else {
        seq![(ps.first().0@, ps.first().1.model())] + model_pairs(ps.drop_first())
    }
}

/// True when the pairs hold the key.
pub open spec fn has_key(ps: Seq<(Seq<char>, CdcModel)>, k: Seq<char>) -> bool {
    exists|i: int| 0 <= i < ps.len() && ps[i].0 == k
}

/// The value under the key's first occurrence.
pub open spec fn lookup(ps: Seq<(Seq<char>, CdcModel)>, k: Seq<char>) -> CdcModel
    decreases ps,
{
    if ps.len() == 0 {
        CdcModel::NONE
    } else if ps.first().0 == k {
        ps.first().1
    } else {
        lookup(ps.drop_first(), k)
    }
}

/// True when every length that the wire format writes as one 64-bit
/// word fits that word: string and blob byte counts, element, attribute,
/// metadata and index-path counts.  Every value built from in-memory
/// vectors and strings satisfies this; the bound matters only for the
/// laws, which quantify over all models.
pub open spec fn wf(m: CdcModel) -> bool
    decreases m,
{
    match m {
        CdcModel::STRING(s) => encode_utf8(s).len() <= u64::MAX,
        CdcModel::LIST(es) => es.len() <= u64::MAX && wf_seq(es),
        CdcModel::MAP(ps) => ps.len() <= u64::MAX && wf_pairs(ps),
        CdcModel::ITEM { id, .. } => encode_utf8(id).len() <= u64::MAX,
        CdcModel::INDEXABLE { id, token, .. } => encode_utf8(id).len() <= u64::MAX
            && encode_utf8(token).len() <= u64::MAX,
        CdcModel::COMMAND(name) => encode_utf8(name).len() <= u64::MAX,
        CdcModel::ERROR { id, text, .. } => encode_utf8(id).len() <= u64::MAX && encode_utf8(
            text,
        ).len() <= u64::MAX,
        CdcModel::TRAIT { id, args, kwargs } => encode_utf8(id).len() <= u64::MAX && args.len()
            <= u64::MAX && wf_seq(args) && kwargs.len() <= u64::MAX && wf_pairs(kwargs),
        CdcModel::OBJECT { type_id, repr, attributes } => encode_utf8(type_id).len() <= u64::MAX
            && encode_utf8(repr).len() <= u64::MAX && attributes.len() <= u64::MAX && wf_pairs(
            attributes,
        ),
        CdcModel::ARRAY { project, item, key, index, transformation, .. } => wf(*project) && wf(
            *item,
        ) && encode_utf8(key).len() <= u64::MAX && index.len() <= u64::MAX && (
        match transformation {
            Some(t) => wf(*t),
            None => true,
        }),
        CdcModel::PACKAGE { reference, metadata } => encode_utf8(reference).len() <= u64::MAX
            && metadata.len() <= u64::MAX && wf_pairs(metadata),
        CdcModel::BLOB(b) => b.len() <= u64::MAX,
        _ => true,
    }
}

/// Well-formedness of every element.
pub open spec fn wf_seq(es: Seq<CdcModel>) -> bool
    decreases es,
{
    if es.len() == 0 {
        true
    } else {
        wf(es.first()) && wf_seq(es.drop_first())
    }
}

/// Well-formedness of every pair: a bounded key and a well-formed value.
pub open spec fn wf_pairs(ps: Seq<(Seq<char>, CdcModel)>) -> bool
    decreases ps,
{
    if ps.len() == 0 {
        true
    } else {
        encode_utf8(ps.first().0).len() <= u64::MAX && wf(ps.first().1) && wf_pairs(
            ps.drop_first(),
        )
    }
}

/// True when every callable handle inside the value is present in the
/// registry.
pub open spec fn registered(m: CdcModel, reg: Seq<u64>) -> bool
    decreases m,
{
    match m {
        CdcModel::CALLABLE(h) => reg.contains(h),
        CdcModel::LIST(es) => registered_seq(es, reg),
        CdcModel::MAP(ps) => registered_pairs(ps, reg),
        CdcModel::TRAIT { args, kwargs, .. } => registered_seq(args, reg) && registered_pairs(
            kwargs,
            reg,
        ),
        CdcModel::OBJECT { attributes, .. } => registered_pairs(attributes, reg),
        CdcModel::ARRAY { project, item, transformation, .. } => registered(*project, reg)
            && registered(*item, reg) && (match transformation {
            Some(t) => registered(*t, reg),
            None => true,
        }),
        CdcModel::PACKAGE { metadata, .. } => registered_pairs(metadata, reg),
        _ => true,
    }
}

/// Registration of every element.
pub open spec fn registered_seq(es: Seq<CdcModel>, reg: Seq<u64>) -> bool
    decreases es,
{
    if es.len() == 0 {
        true
    } else {
        registered(es.first(), reg) && registered_seq(es.drop_first(), reg)
    }
}

/// Registration of every pair's value.
pub open spec fn registered_pairs(ps: Seq<(Seq<char>, CdcModel)>, reg: Seq<u64>) -> bool
    decreases ps,
{
    if ps.len() == 0 {
        true
    } else {
        registered(ps.first().1, reg) && registered_pairs(ps.drop_first(), reg)
    }
}

/// The element models line up with the elements.
pub proof fn lemma_model_seq(es: Seq<CdcValue>)
    ensures
        model_seq(es).len() == es.len(),
        forall|i: int| 0 <= i < es.len() ==> model_seq(es)[i] == es[i].model(),
    decreases es,
{
    if es.len() > 0 {
        lemma_model_seq(es.drop_first());
    }
}

/// The pair models line up with the pairs.
pub proof fn lemma_model_pairs(ps: Seq<(String, CdcValue)>)
    ensures
        model_pairs(ps).len() == ps.len(),
        forall|i: int|
            0 <= i < ps.len() ==> model_pairs(ps)[i] == (ps[i].0@, ps[i].1.model()),
    decreases ps,
{
    if ps.len() > 0 {
        lemma_model_pairs(ps.drop_first());
    }
}

/// Registration survives any growth of the registry.
pub proof fn lemma_registered_monotone(m: CdcModel, r1: Seq<u64>, r2: Seq<u64>)
    requires
        registered(m, r1),
        forall|h: u64| r1.contains(h) ==> r2.contains(h),
    ensures
        registered(m, r2),
    decreases m,
{
    match m {
        CdcModel::LIST(es) => lemma_registered_seq_monotone(es, r1, r2),
        CdcModel::MAP(ps) => lemma_registered_pairs_monotone(ps, r1, r2),
        CdcModel::TRAIT { args, kwargs, .. } => {
            lemma_registered_seq_monotone(args, r1, r2);
            lemma_registered_pairs_monotone(kwargs, r1, r2);
        },
        CdcModel::OBJECT { attributes, .. } => lemma_registered_pairs_monotone(
            attributes,
            r1,
            r2,
        ),
        CdcModel::ARRAY { project, item, transformation, .. } => {
            lemma_registered_monotone(*project, r1, r2);
            lemma_registered_monotone(*item, r1, r2);
            match transformation {
                Some(t) => lemma_registered_monotone(*t, r1, r2),
                None => {},
            }
        },
        CdcModel::PACKAGE { metadata, .. } => lemma_registered_pairs_monotone(metadata, r1, r2),
        _ => {},
    }
}

/// Registration of every element survives growth of the registry.
pub proof fn lemma_registered_seq_monotone(es: Seq<CdcModel>, r1: Seq<u64>, r2: Seq<u64>)
    requires
        registered_seq(es, r1),
        forall|h: u64| r1.contains(h) ==> r2.contains(h),
    ensures
        registered_seq(es, r2),
    decreases es,
{
    if es.len() > 0 {
        lemma_registered_monotone(es.first(), r1, r2);
        lemma_registered_seq_monotone(es.drop_first(), r1, r2);
    }
}

/// Registration of every pair's value survives growth of the registry.
pub proof fn lemma_registered_pairs_monotone(
    ps: Seq<(Seq<char>, CdcModel)>,
    r1: Seq<u64>,
    r2: Seq<u64>,
)
    requires
        registered_pairs(ps, r1),
        forall|h: u64| r1.contains(h) ==> r2.contains(h),
    ensures
        registered_pairs(ps, r2),
    decreases ps,
{
    if ps.len() > 0 {
        lemma_registered_monotone(ps.first().1, r1, r2);
        lemma_registered_pairs_monotone(ps.drop_first(), r1, r2);
    }
}

/// Appending an element extends the element-wise predicates pointwise.
pub proof fn lemma_seq_push(es: Seq<CdcModel>, m: CdcModel, reg: Seq<u64>)
    ensures
        wf_seq(es.push(m)) == (wf_seq(es) && wf(m)),
        registered_seq(es.push(m), reg) == (registered_seq(es, reg) && registered(m, reg)),
    decreases es,
{
    assert(es.push(m).len() == es.len() + 1);
    if es.len() == 0 {
        assert(es.push(m).first() == m);
        assert(es.push(m).drop_first() =~= Seq::<CdcModel>::empty());
        assert(wf_seq(Seq::<CdcModel>::empty()));
        assert(registered_seq(Seq::<CdcModel>::empty(), reg));
    } else {
        assert(es.push(m).drop_first() =~= es.drop_first().push(m));
        assert(es.push(m).first() == es.first());
        lemma_seq_push(es.drop_first(), m, reg);
    }
}

/// Appending a pair extends the pair-wise predicates pointwise.
pub proof fn lemma_pairs_push(
    ps: Seq<(Seq<char>, CdcModel)>,
    k: Seq<char>,
    v: CdcModel,
    reg: Seq<u64>,
)
    ensures
        wf_pairs(ps.push((k, v))) == (wf_pairs(ps) && encode_utf8(k).len() <= u64::MAX && wf(v)),
        registered_pairs(ps.push((k, v)), reg) == (registered_pairs(ps, reg) && registered(
            v,
            reg,
        )),
    decreases ps,
{
    assert(ps.push((k, v)).len() == ps.len() + 1);
    if ps.len() == 0 {
        assert(ps.push((k, v)).first() == (k, v));
        assert(ps.push((k, v)).drop_first() =~= Seq::<(Seq<char>, CdcModel)>::empty());
        assert(wf_pairs(Seq::<(Seq<char>, CdcModel)>::empty()));
        assert(registered_pairs(Seq::<(Seq<char>, CdcModel)>::empty(), reg));
    } else {
        assert(ps.push((k, v)).drop_first() =~= ps.drop_first().push((k, v)));
        assert(ps.push((k, v)).first() == ps.first());
        lemma_pairs_push(ps.drop_first(), k, v, reg);
    }
}

/// The index of the key's first occurrence; meaningful only where the
/// key is present.
pub open spec fn idx_of(ps: Seq<(Seq<char>, CdcModel)>, k: Seq<char>) -> int
    decreases ps,
{
    if ps.len() == 0 {
        0
    } else if ps.first().0 == k {
        0
    } else {
        1 + idx_of(ps.drop_first(), k)
    }
}

/// The pairs with the key's first occurrence removed.
pub open spec fn remove_key(
    ps: Seq<(Seq<char>, CdcModel)>,
    k: Seq<char>,
) -> Seq<(Seq<char>, CdcModel)> {
    ps.remove(idx_of(ps, k))
}

/// Where the first occurrence of a key stands at `j`, the lookup, the
/// index and the removal all name that position.
pub proof fn lemma_first_occurrence(ps: Seq<(Seq<char>, CdcModel)>, k: Seq<char>, j: int)
    requires
        0 <= j < ps.len(),
        ps[j].0 == k,
        forall|i: int| 0 <= i < j ==> ps[i].0 != k,
    ensures
        has_key(ps, k),
        idx_of(ps, k) == j,
        lookup(ps, k) == ps[j].1,
    decreases ps,
{
    if j > 0 {
        assert(forall|i: int|
            0 <= i < ps.drop_first().len() ==> ps.drop_first()[i] == ps[i + 1]);
        lemma_first_occurrence(ps.drop_first(), k, j - 1);
    }
}

/// A key absent from every pair is not held.
pub proof fn lemma_key_absent(ps: Seq<(Seq<char>, CdcModel)>, k: Seq<char>)
    requires
        forall|i: int| 0 <= i < ps.len() ==> ps[i].0 != k,
    ensures
        !has_key(ps, k),
{
}

/// A key absent from every pair reads as the None value.
pub proof fn lemma_lookup_absent(ps: Seq<(Seq<char>, CdcModel)>, k: Seq<char>)
    requires
        forall|i: int| 0 <= i < ps.len() ==> ps[i].0 != k,
    ensures
        lookup(ps, k) == CdcModel::NONE,
    decreases ps,
{
    if ps.len() > 0 {
        assert(forall|i: int|
            0 <= i < ps.drop_first().len() ==> ps.drop_first()[i] == ps[i + 1]);
        lemma_lookup_absent(ps.drop_first(), k);
    }
}

} // verus!
