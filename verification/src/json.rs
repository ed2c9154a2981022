//! The JSON value tree that a parse produces, and its mathematical model.

use vstd::prelude::*;

verus! {

/// A decoded JSON number: a sign, a decimal significand, and a power-of-ten
/// exponent.  The token `-5.8` is held as `neg: true, sig: 58, exp: -1`, that
/// is, the number denoted is `(-1)^neg * sig * 10^exp`.  Long digit strings
/// wrap the significand modulo 2^64; the exponent is capped well past the
/// range where any finite binary float could distinguish values.
#[derive(Clone, Copy, Debug, PartialEq, Eq, Structural)]
pub struct Number {
    pub neg: bool,
    pub sig: u64,
    pub exp: i64,
}

/// A JSON value.
///
/// Objects keep their pairs in first-insertion order with unique keys;
/// a duplicate key overwrites the value in place (last write wins).
#[derive(Debug, PartialEq)]
pub enum Value {
    String(String),
    Number(Number),
    Bool(bool),
    Null,
    Object(Object),
    Array(Array),
}

/// A string-keyed mapping with unique keys, in first-insertion order.
pub type Object = Vec<(String, Value)>;

/// An ordered sequence of values.
pub type Array = Vec<Value>;

/// The mathematical shape of a [`Value`]: strings become character
/// sequences, collections become sequences of models.
pub enum ValueModel {
    Str(Seq<char>),
    Num(Number),
    Bool(bool),
    Null,
    Obj(Seq<(Seq<char>, ValueModel)>),
    Arr(Seq<ValueModel>),
}

/// The model of a [`Value`].
pub open spec fn value_model(v: Value) -> ValueModel
    decreases v, 2int,
{
    match v {
        Value::String(s) => ValueModel::Str(s@),
        Value::Number(n) => ValueModel::Num(n),
        Value::Bool(b) => ValueModel::Bool(b),
        Value::Null => ValueModel::Null,
        Value::Object(pairs) => ValueModel::Obj(pairs_model(pairs@)),
        Value::Array(items) => ValueModel::Arr(items_model(items@)),
    }
}

/// The models of an object's pairs, in order.
pub open spec fn pairs_model(pairs: Seq<(String, Value)>) -> Seq<(Seq<char>, ValueModel)>
    decreases pairs, 1int,
{
    if pairs.len() == 0 {
        Seq::empty()
    } else {
        seq![(pairs[0].0@, value_model(pairs[0].1))] + pairs_model(pairs.drop_first())
    }
}

/// The models of an array's items, in order.
pub open spec fn items_model(items: Seq<Value>) -> Seq<ValueModel>
    decreases items, 1int,
{
    if items.len() == 0 {
        Seq::empty()
    } else {
        seq![value_model(items[0])] + items_model(items.drop_first())
    }
}

impl View for Value {
    type V = ValueModel;

    open spec fn view(&self) -> ValueModel {
        value_model(*self)
    }
}

/// No two pairs share a key.
pub open spec fn keys_unique(pairs: Seq<(Seq<char>, ValueModel)>) -> bool {
    forall|i: int, j: int| 0 <= i < j < pairs.len() ==> pairs[i].0 != pairs[j].0
}

/// Every object in the tree has unique keys.
pub open spec fn model_wf(m: ValueModel) -> bool
    decreases m, 1int,
{
    match m {
        ValueModel::Obj(pairs) => keys_unique(pairs) && pairs_wf(pairs),
        ValueModel::Arr(items) => arr_wf(items),
        _ => true,
    }
}

/// Every value among the pairs is well-formed.
pub open spec fn pairs_wf(pairs: Seq<(Seq<char>, ValueModel)>) -> bool
    decreases pairs, 0int,
{
    if pairs.len() == 0 {
        true
    } else {
        model_wf(pairs[0].1) && pairs_wf(pairs.drop_first())
    }
}

/// Every item is well-formed.
pub open spec fn arr_wf(items: Seq<ValueModel>) -> bool
    decreases items, 0int,
{
    if items.len() == 0 {
        true
    } else {
        model_wf(items[0]) && arr_wf(items.drop_first())
    }
}

pub proof fn lemma_arr_wf_iff(items: Seq<ValueModel>)
    ensures
        arr_wf(items) <==> (forall|i: int|
            0 <= i < items.len() ==> model_wf(#[trigger] items[i])),
    decreases items.len(),
{
    if items.len() > 0 {
        lemma_arr_wf_iff(items.drop_first());
        if arr_wf(items) {
            assert forall|i: int| 0 <= i < items.len() implies model_wf(#[trigger] items[i]) by {
                if i > 0 {
                    assert(items.drop_first()[i - 1] == items[i]);
                }
            }
        }
        if forall|i: int| 0 <= i < items.len() ==> model_wf(#[trigger] items[i]) {
            assert forall|j: int| 0 <= j < items.drop_first().len() implies model_wf(
                #[trigger] items.drop_first()[j],
            ) by {
                assert(items.drop_first()[j] == items[j + 1]);
            }
            assert(arr_wf(items.drop_first()));
            assert(model_wf(items[0]));
            assert(arr_wf(items));
        }
    }
}

pub proof fn lemma_pairs_wf_iff(pairs: Seq<(Seq<char>, ValueModel)>)
    ensures
        pairs_wf(pairs) <==> (forall|i: int|
            0 <= i < pairs.len() ==> model_wf((#[trigger] pairs[i]).1)),
    decreases pairs.len(),
{
    if pairs.len() > 0 {
        lemma_pairs_wf_iff(pairs.drop_first());
        if pairs_wf(pairs) {
            assert forall|i: int| 0 <= i < pairs.len() implies model_wf(
                (#[trigger] pairs[i]).1,
            ) by {
                if i > 0 {
                    assert(pairs.drop_first()[i - 1] == pairs[i]);
                }
            }
        }
        if forall|i: int| 0 <= i < pairs.len() ==> model_wf((#[trigger] pairs[i]).1) {
            assert forall|j: int| 0 <= j < pairs.drop_first().len() implies model_wf(
                (#[trigger] pairs.drop_first()[j]).1,
            ) by {
                assert(pairs.drop_first()[j] == pairs[j + 1]);
            }
            assert(pairs_wf(pairs.drop_first()));
            assert(model_wf(pairs[0].1));
            assert(pairs_wf(pairs));
        }
    }
}

/// Appending an item appends its model.
pub proof fn lemma_items_model_snoc(items: Seq<Value>, v: Value)
    ensures
        items_model(items.push(v)) == items_model(items).push(value_model(v)),
{
    lemma_items_model_props(items);
    lemma_items_model_props(items.push(v));
    assert forall|i: int| 0 <= i < items.len() + 1 implies items_model(items.push(v))[i]
        == items_model(items).push(value_model(v))[i] by {
        assert(items.push(v)[i] == (if i < items.len() {
            items[i]
        } else {
            v
        }));
    }
    assert(items_model(items.push(v)) =~= items_model(items).push(value_model(v)));
}

/// Appending a pair appends its model.
pub proof fn lemma_pairs_model_snoc(pairs: Seq<(String, Value)>, k: String, v: Value)
    ensures
        pairs_model(pairs.push((k, v))) == pairs_model(pairs).push((k@, value_model(v))),
{
    lemma_pairs_model_props(pairs);
    lemma_pairs_model_props(pairs.push((k, v)));
    assert forall|i: int| 0 <= i < pairs.len() + 1 implies pairs_model(pairs.push((k, v)))[i]
        == pairs_model(pairs).push((k@, value_model(v)))[i] by {
        assert(pairs.push((k, v))[i] == (if i < pairs.len() {
            pairs[i]
        } else {
            (k, v)
        }));
    }
    assert(pairs_model(pairs.push((k, v))) =~= pairs_model(pairs).push((k@, value_model(v))));
}

/// Insertion with last-write-wins: a pair whose key is already present
/// replaces that pair in place; a fresh key goes to the end.
pub open spec fn obj_insert(
    pairs: Seq<(Seq<char>, ValueModel)>,
    k: Seq<char>,
    v: ValueModel,
) -> Seq<(Seq<char>, ValueModel)>
    decreases pairs.len(),
{
    if pairs.len() == 0 {
        seq![(k, v)]
    } else if pairs[0].0 == k {
        seq![(k, v)] + pairs.drop_first()
    } else {
        seq![pairs[0]] + obj_insert(pairs.drop_first(), k, v)
    }
}

pub proof fn lemma_items_model_props(items: Seq<Value>)
    ensures
        items_model(items).len() == items.len(),
        forall|i: int| 0 <= i < items.len() ==> items_model(items)[i] == value_model(
            #[trigger] items[i],
        ),
    decreases items.len(),
{
    if items.len() > 0 {
        lemma_items_model_props(items.drop_first());
        assert forall|i: int| 0 <= i < items.len() implies items_model(items)[i] == value_model(
            #[trigger] items[i],
        ) by {
            if i > 0 {
                assert(items.drop_first()[i - 1] == items[i]);
            }
        }
    }
}

pub proof fn lemma_pairs_model_props(pairs: Seq<(String, Value)>)
    ensures
        pairs_model(pairs).len() == pairs.len(),
        forall|i: int| 0 <= i < pairs.len() ==> pairs_model(pairs)[i] == ((#[trigger] pairs[i]).0@,
        value_model(pairs[i].1)),
    decreases pairs.len(),
{
    if pairs.len() > 0 {
        lemma_pairs_model_props(pairs.drop_first());
        assert forall|i: int| 0 <= i < pairs.len() implies pairs_model(pairs)[i] == ((
        #[trigger] pairs[i]).0@, value_model(pairs[i].1)) by {
            if i > 0 {
                assert(pairs.drop_first()[i - 1] == pairs[i]);
            }
        }
    }
}

/// Inserting a key that a prefix of the pairs does not hold, at the first
/// position that holds it, replaces that pair in place.
pub proof fn lemma_obj_insert_found(
    pairs: Seq<(Seq<char>, ValueModel)>,
    i: int,
    k: Seq<char>,
    v: ValueModel,
)
    requires
        0 <= i < pairs.len(),
        forall|j: int| 0 <= j < i ==> (#[trigger] pairs[j]).0 != k,
        pairs[i].0 == k,
    ensures
        obj_insert(pairs, k, v) == pairs.update(i, (k, v)),
    decreases i,
{
    if i == 0 {
        assert(obj_insert(pairs, k, v) =~= pairs.update(0, (k, v)));
    } else {
        assert(forall|j: int|
            0 <= j < i - 1 ==> (#[trigger] pairs.drop_first()[j]).0 == pairs[j + 1].0);
        lemma_obj_insert_found(pairs.drop_first(), i - 1, k, v);
        assert(obj_insert(pairs, k, v) =~= pairs.update(i, (k, v)));
    }
}

/// Inserting a key that no pair holds appends the new pair.
pub proof fn lemma_obj_insert_absent(pairs: Seq<(Seq<char>, ValueModel)>, k: Seq<char>, v: ValueModel)
    requires
        forall|j: int| 0 <= j < pairs.len() ==> (#[trigger] pairs[j]).0 != k,
    ensures
        obj_insert(pairs, k, v) == pairs.push((k, v)),
    decreases pairs.len(),
{
    if pairs.len() == 0 {
        assert(obj_insert(pairs, k, v) =~= pairs.push((k, v)));
    } else {
        assert(forall|j: int|
            0 <= j < pairs.drop_first().len() ==> (#[trigger] pairs.drop_first()[j]).0 == pairs[j
                + 1].0);
        lemma_obj_insert_absent(pairs.drop_first(), k, v);
        assert(obj_insert(pairs, k, v) =~= pairs.push((k, v)));
    }
}

/// Insertion keeps keys unique, and every resulting pair is either the new
/// pair or one of the old ones.
pub proof fn lemma_obj_insert_wf(pairs: Seq<(Seq<char>, ValueModel)>, k: Seq<char>, v: ValueModel)
    requires
        keys_unique(pairs),
    ensures
        keys_unique(obj_insert(pairs, k, v)),
        forall|j: int| 0 <= j < obj_insert(pairs, k, v).len() ==> (#[trigger] obj_insert(
            pairs,
            k,
            v,
        )[j] == (k, v) || pairs.contains(obj_insert(pairs, k, v)[j])),
    decreases pairs.len(),
{
    let res = obj_insert(pairs, k, v);
    if pairs.len() == 0 {
    } else if pairs[0].0 == k {
        assert(forall|j: int| 1 <= j < res.len() ==> res[j] == pairs[j]);
        assert(forall|j: int| 1 <= j < res.len() ==> pairs.contains(#[trigger] res[j]));
    } else {
        let rest = pairs.drop_first();
        assert(forall|i: int, j: int|
            0 <= i < j < rest.len() ==> (#[trigger] rest[i], #[trigger] rest[j]) == (
            pairs[i + 1],
            pairs[j + 1],
            ));
        lemma_obj_insert_wf(rest, k, v);
        let sub = obj_insert(rest, k, v);
        assert(res[0] == pairs[0]);
        assert(forall|j: int| 1 <= j < res.len() ==> res[j] == sub[j - 1]);
        assert forall|j: int| 0 <= j < res.len() implies (#[trigger] res[j] == (k, v)
            || pairs.contains(res[j])) by {
            if j > 0 && sub[j - 1] != (k, v) {
                assert(rest.contains(sub[j - 1]));
                let w = choose|w: int| 0 <= w < rest.len() && rest[w] == sub[j - 1];
                assert(pairs[w + 1] == sub[j - 1]);
            }
        }
        assert forall|i: int, j: int| 0 <= i < j < res.len() implies res[i].0 != res[j].0 by {
            if i == 0 {
                if sub[j - 1] == (k, v) {
                } else {
                    assert(rest.contains(sub[j - 1]));
                    let w = choose|w: int| 0 <= w < rest.len() && rest[w] == sub[j - 1];
                    assert(pairs[w + 1] == sub[j - 1]);
                }
            }
        }
    }
}

/// Insertion into a well-formed object with a well-formed value yields a
/// well-formed object.
pub proof fn lemma_obj_insert_preserves_wf(
    pairs: Seq<(Seq<char>, ValueModel)>,
    k: Seq<char>,
    v: ValueModel,
)
    requires
        model_wf(ValueModel::Obj(pairs)),
        model_wf(v),
    ensures
        model_wf(ValueModel::Obj(obj_insert(pairs, k, v))),
{
    lemma_obj_insert_wf(pairs, k, v);
    lemma_pairs_wf_iff(pairs);
    let res = obj_insert(pairs, k, v);
    lemma_pairs_wf_iff(res);
    assert forall|j: int| 0 <= j < res.len() implies model_wf((#[trigger] res[j]).1) by {
        if res[j] == (k, v) {
        } else {
            assert(pairs.contains(res[j]));
            let w = choose|w: int| 0 <= w < pairs.len() && pairs[w] == res[j];
            assert(model_wf(pairs[w].1));
        }
    }
}

/// Insert a pair into an object, overwriting the value held under an equal
/// key, as [`obj_insert`] describes.
pub fn insert_pair(object: &mut Object, key: String, value: Value)
    ensures
        pairs_model(final(object)@) == obj_insert(
            pairs_model(old(object)@),
            key@,
            value_model(value),
        ),
{
    proof {
        lemma_pairs_model_props(old(object)@);
    }
    let n = object.len();
    let mut i: usize = 0;
    let mut found = false;
    while i < n && !found
        invariant
            n == object@.len(),
            0 <= i <= n,
            object@ == old(object)@,
            !found ==> forall|j: int| 0 <= j < i ==> (#[trigger] object@[j]).0@ != key@,
            found ==> i < n && object@[i as int].0@ == key@ && forall|j: int|
                0 <= j < i ==> (#[trigger] object@[j]).0@ != key@,
        decreases n - i + (if found { 0int } else { 1int }),
    {
        if object[i].0 == key {
            found = true;
        } else {
            i = i + 1;
        }
    }
    let ghost old_pairs = object@;
    let ghost vm = value_model(value);
    if found {
        proof {
            assert forall|j: int| 0 <= j < i implies (#[trigger] pairs_model(old_pairs)[j]).0
                != key@ by {
                assert(old_pairs[j].0@ != key@);
            }
            assert(pairs_model(old_pairs)[i as int].0 == key@);
            lemma_obj_insert_found(pairs_model(old_pairs), i as int, key@, vm);
        }
        object[i] = (key, value);
        proof {
            lemma_pairs_model_props(object@);
            assert forall|j: int| 0 <= j < object@.len() implies pairs_model(object@)[j]
                == pairs_model(old_pairs).update(i as int, (key@, vm))[j] by {
                assert(pairs_model(object@)[j] == (object@[j].0@, value_model(object@[j].1)));
                assert(pairs_model(old_pairs)[j] == (old_pairs[j].0@, value_model(
                    old_pairs[j].1,
                )));
            }
            assert(pairs_model(object@) =~= pairs_model(old_pairs).update(i as int, (key@, vm)));
        }
    } else {
        proof {
            assert forall|j: int| 0 <= j < pairs_model(old_pairs).len() implies (
            #[trigger] pairs_model(old_pairs)[j]).0 != key@ by {
                assert(old_pairs[j].0@ != key@);
            }
            lemma_obj_insert_absent(pairs_model(old_pairs), key@, vm);
        }
        object.push((key, value));
        proof {
            lemma_pairs_model_props(object@);
            assert forall|j: int| 0 <= j < object@.len() implies pairs_model(object@)[j]
                == pairs_model(old_pairs).push((key@, vm))[j] by {
                assert(pairs_model(object@)[j] == (object@[j].0@, value_model(object@[j].1)));
                if j < old_pairs.len() {
                    assert(pairs_model(old_pairs)[j] == (old_pairs[j].0@, value_model(
                        old_pairs[j].1,
                    )));
                }
            }
            assert(pairs_model(object@) =~= pairs_model(old_pairs).push((key@, vm)));
        }
    }
}

} // verus!
