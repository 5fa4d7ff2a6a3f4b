//! Checking a value against a schema value.
use vstd::prelude::*;
use crate::value::{Value, JsonValue, ParsonError};
use crate::object::{Object, lookup};
use crate::array::Array;

verus! {

/// Whether two values are of the same kind (both null, both booleans, ...).
pub open spec fn same_kind(a: JsonValue, b: JsonValue) -> bool {
    match (a, b) {
        (JsonValue::Null, JsonValue::Null) => true,
        (JsonValue::Bool(_), JsonValue::Bool(_)) => true,
        (JsonValue::Number(_), JsonValue::Number(_)) => true,
        (JsonValue::String(_), JsonValue::String(_)) => true,
        (JsonValue::Array(_), JsonValue::Array(_)) => true,
        (JsonValue::Object(_), JsonValue::Object(_)) => true,
        _ => false,
    }
}

/// The outcome of checking `value` against `schema`: a null schema accepts anything; else
/// the kinds must agree; an array schema with a first element checks every item against
/// it; an object schema needs each of its keys, in order, with a value that its value
/// accepts. The first failure decides the error.
pub open spec fn validation(schema: JsonValue, value: JsonValue) -> Result<(), ParsonError>
    decreases schema, 0int,
{
    if schema is Null {
        Ok(())
    } else if !same_kind(schema, value) {
        Err(ParsonError::TypeError)
    } else {
        match schema {
            JsonValue::Array(t) => if t.len() == 0 {
                Ok(())
            } else {
                match value {
                    JsonValue::Array(items) => items_validation(t[0], items),
                    _ => Ok(()),
                }
            },
            JsonValue::Object(sm) => match value {
                JsonValue::Object(vm) => members_validation(sm, vm),
                _ => Ok(()),
            },
            _ => Ok(()),
        }
    }
}

/// Each item checked against `template`, in order; the first failure decides.
pub open spec fn items_validation(template: JsonValue, items: Seq<JsonValue>) -> Result<
    (),
    ParsonError,
>
    decreases template, items.len(),
{
    if items.len() == 0 {
        Ok(())
    } else {
        match validation(template, items[0]) {
            Err(e) => Err(e),
            Ok(()) => items_validation(template, items.drop_first()),
        }
    }
}

/// Each schema member, in order, must name a member of `vm` that its value accepts.
pub open spec fn members_validation(
    sm: Seq<(Seq<char>, JsonValue)>,
    vm: Seq<(Seq<char>, JsonValue)>,
) -> Result<(), ParsonError>
    decreases sm, 0int,
{
    if sm.len() == 0 {
        Ok(())
    } else {
        match lookup(vm, sm[0].0) {
            None => Err(ParsonError::NotFound),
            Some(x) => match validation(sm[0].1, x) {
                Err(e) => Err(e),
                Ok(()) => members_validation(sm.drop_first(), vm),
            },
        }
    }
}

/// Whether two values are of the same kind.
fn same_type(a: &Value, b: &Value) -> (r: bool)
    ensures
        r == same_kind(a@, b@),
{
    match (a, b) {
        (Value::Null, Value::Null) => true,
        (Value::Bool(_), Value::Bool(_)) => true,
        (Value::Number(_), Value::Number(_)) => true,
        (Value::String(_), Value::String(_)) => true,
        (Value::Array(_), Value::Array(_)) => true,
        (Value::Object(_), Value::Object(_)) => true,
        _ => false,
    }
}

/// Checks that `value` has the structure of `schema`: `Ok` exactly when `validation`
/// accepts it, else its error (`TypeError` for a kind mismatch, `NotFound` for a missing
/// key).
pub fn validate(schema: &Value, value: &Value) -> (r: Result<(), ParsonError>)
    ensures
        r == validation(schema@, value@),
        !(schema@ is Null) && !((schema@ is Bool && value@ is Bool) || (schema@ is Number
            && value@ is Number) || (schema@ is String && value@ is String) || (schema@ is Array
            && value@ is Array) || (schema@ is Object && value@ is Object)) ==> r == Err::<
            (),
            ParsonError,
        >(ParsonError::TypeError),
    decreases schema@, 2int,
{
    proof {
        law_validation_by_variant(schema@, value@);
    }
    if schema.is_null() {
        return Ok(());
    }
    if !same_type(schema, value) {
        return Err(ParsonError::TypeError);
    }
    match (schema, value) {
        (Value::Array(sa), Value::Array(va)) => {
            if sa.is_empty() {
                return Ok(());
            }
            let template = match sa.get(0) {
                Some(t) => t,
                None => return Ok(()),
            };
            assert(decreases_to!(schema@ => template@)) by {
                assert(decreases_to!(schema@ => schema@->Array_0));
                assert(decreases_to!(schema@->Array_0 => schema@->Array_0[0]));
            }
            validate_items(template, va)
        },
        (Value::Object(so), Value::Object(vo)) => validate_members(so, vo),
        _ => Ok(()),
    }
}

/// Checks each item of `items` against `template`, in order.
fn validate_items(template: &Value, items: &Array) -> (r: Result<(), ParsonError>)
    ensures
        r == items_validation(template@, items.model()),
    decreases template@, 3 + items.model().len(),
{
    let n = items.len();
    let ghost all = items.model();
    assert(all.skip(0) =~= all);
    for i in 0..n
        invariant
            n == all.len(),
            all == items.model(),
            items_validation(template@, all) == items_validation(template@, all.skip(i as int)),
    {
        let item = match items.get(i) {
            Some(x) => x,
            None => return Ok(()),
        };
        assert(all.skip(i as int)[0] == item@);
        assert(all.skip(i as int).drop_first() =~= all.skip(i + 1));
        match validate(template, item) {
            Err(e) => return Err(e),
            Ok(()) => {},
        }
    }
    assert(all.skip(n as int) =~= Seq::<JsonValue>::empty());
    Ok(())
}

/// Checks each member of the schema object `so`, in order, against the object `vo`.
fn validate_members(so: &Object, vo: &Object) -> (r: Result<(), ParsonError>)
    ensures
        r == members_validation(so.model(), vo.model()),
    decreases JsonValue::Object(so.model()), 1int,
{
    let n = so.len();
    let ghost sm = so.model();
    let ghost whole = JsonValue::Object(sm);
    assert(sm.skip(0) =~= sm);
    for i in 0..n
        invariant
            n == sm.len(),
            sm == so.model(),
            whole == JsonValue::Object(sm),
            members_validation(sm, vo.model()) == members_validation(sm.skip(i as int), vo.model()),
    {
        let key = match so.get_key_at(i) {
            Some(k) => k,
            None => return Ok(()),
        };
        let sv = match so.get_value_at(i) {
            Some(x) => x,
            None => return Ok(()),
        };
        assert(sm.skip(i as int)[0] == (key@, sv@));
        assert(sm.skip(i as int).drop_first() =~= sm.skip(i + 1));
        match vo.get(key) {
            None => return Err(ParsonError::NotFound),
            Some(v) => {
                assert(decreases_to!(whole => sv@)) by {
                    assert(decreases_to!(whole => whole->Object_0));
                    assert(decreases_to!(sm => sm[i as int]));
                    assert(decreases_to!(sm[i as int] => sm[i as int].1));
                }
                match validate(sv, v) {
                    Err(e) => return Err(e),
                    Ok(()) => {},
                }
            },
        }
    }
    assert(sm.skip(n as int) =~= Seq::<(Seq<char>, JsonValue)>::empty());
    Ok(())
}

/// The items pass exactly when each passes on its own; when they fail, the first failing
/// item's error is the error.
proof fn lemma_items_validation(template: JsonValue, items: Seq<JsonValue>)
    ensures
        items_validation(template, items) is Ok <==> forall|i: int|
            0 <= i < items.len() ==> (#[trigger] validation(template, items[i])) is Ok,
        items_validation(template, items) is Err ==> exists|i: int|
            0 <= i < items.len() && items_validation(template, items) == validation(
                template,
                #[trigger] items[i],
            ) && forall|j: int| 0 <= j < i ==> (#[trigger] validation(template, items[j])) is Ok,
    decreases items.len(),
{
    if items.len() > 0 {
        let rest = items.drop_first();
        lemma_items_validation(template, rest);
        assert forall|i: int| 0 < i < items.len() implies items[i] == rest[i - 1] by {}
        if validation(template, items[0]) is Ok {
            if items_validation(template, rest) is Err {
                let k = choose|k: int|
                    0 <= k < rest.len() && items_validation(template, rest) == validation(
                        template,
                        #[trigger] rest[k],
                    ) && forall|j: int|
                        0 <= j < k ==> (#[trigger] validation(template, rest[j])) is Ok;
                assert(items[k + 1] == rest[k]);
                assert forall|j: int| 0 <= j < k + 1 implies (#[trigger] validation(
                    template,
                    items[j],
                )) is Ok by {
                    if j > 0 {
                        assert(items[j] == rest[j - 1]);
                    }
                }
            } else {
                assert forall|i: int| 0 <= i < items.len() implies (#[trigger] validation(
                    template,
                    items[i],
                )) is Ok by {
                    if i > 0 {
                        assert(items[i] == rest[i - 1]);
                    }
                }
            }
        }
    }
}

/// The schema members pass exactly when each names a member of `vm` whose value passes;
/// when they fail, the first failing schema member decides: `NotFound` when its key is
/// missing, else its value's error.
proof fn lemma_members_validation(sm: Seq<(Seq<char>, JsonValue)>, vm: Seq<(Seq<char>, JsonValue)>)
    ensures
        members_validation(sm, vm) is Ok <==> forall|i: int|
            0 <= i < sm.len() ==> member_passes(#[trigger] sm[i], vm),
        members_validation(sm, vm) is Err ==> exists|i: int|
            0 <= i < sm.len() && members_validation(sm, vm) == member_outcome(#[trigger] sm[i], vm)
                && forall|j: int| 0 <= j < i ==> member_passes(#[trigger] sm[j], vm),
    decreases sm.len(),
{
    if sm.len() > 0 {
        let rest = sm.drop_first();
        lemma_members_validation(rest, vm);
        if member_passes(sm[0], vm) {
            if members_validation(rest, vm) is Err {
                let k = choose|k: int|
                    0 <= k < rest.len() && members_validation(rest, vm) == member_outcome(
                        #[trigger] rest[k],
                        vm,
                    ) && forall|j: int| 0 <= j < k ==> member_passes(#[trigger] rest[j], vm);
                assert(sm[k + 1] == rest[k]);
                assert forall|j: int| 0 <= j < k + 1 implies member_passes(#[trigger] sm[j], vm) by {
                    if j > 0 {
                        assert(sm[j] == rest[j - 1]);
                    }
                }
            } else {
                assert forall|i: int| 0 <= i < sm.len() implies member_passes(#[trigger] sm[i], vm) by {
                    if i > 0 {
                        assert(sm[i] == rest[i - 1]);
                    }
                }
            }
        }
    }
}

/// What checking one schema member against `vm` gives: `NotFound` when its key is missing,
/// else the outcome of checking the member's value.
pub open spec fn member_outcome(m: (Seq<char>, JsonValue), vm: Seq<(Seq<char>, JsonValue)>) -> Result<
    (),
    ParsonError,
> {
    match lookup(vm, m.0) {
        None => Err(ParsonError::NotFound),
        Some(x) => validation(m.1, x),
    }
}

/// One schema member passes against `vm`.
pub open spec fn member_passes(m: (Seq<char>, JsonValue), vm: Seq<(Seq<char>, JsonValue)>) -> bool {
    member_outcome(m, vm) is Ok
}

/// Validation in words: a null schema accepts anything; otherwise the kinds must agree
/// (else `TypeError`); an array schema that is empty accepts any array, else every item
/// must pass against its first element; an object schema needs every one of its keys in
/// the value, with a value that passes against the schema's. On failure the first failing
/// item or schema member, in order, gives the error: `NotFound` for a missing key.
pub proof fn law_validation(schema: JsonValue, value: JsonValue)
    ensures
        validation(schema, value) is Ok <==> (schema is Null || (same_kind(schema, value) && match (
            schema,
            value,
        ) {
            (JsonValue::Array(t), JsonValue::Array(items)) => t.len() == 0 || forall|i: int|
                0 <= i < items.len() ==> (#[trigger] validation(t[0], items[i])) is Ok,
            (JsonValue::Object(sm), JsonValue::Object(vm)) => forall|i: int|
                0 <= i < sm.len() ==> member_passes(#[trigger] sm[i], vm),
            _ => true,
        })),
        !(schema is Null) && !same_kind(schema, value) ==> validation(schema, value) == Err::<
            (),
            ParsonError,
        >(ParsonError::TypeError),
        (schema, value) matches (JsonValue::Array(t), JsonValue::Array(items)) ==> (t.len() > 0
            && validation(schema, value) is Err ==> exists|i: int|
            0 <= i < items.len() && validation(schema, value) == validation(t[0], #[trigger] items[i])
                && forall|j: int| 0 <= j < i ==> (#[trigger] validation(t[0], items[j])) is Ok),
        (schema, value) matches (JsonValue::Object(sm), JsonValue::Object(vm)) ==> (validation(
            schema,
            value,
        ) is Err ==> exists|i: int|
            0 <= i < sm.len() && validation(schema, value) == member_outcome(#[trigger] sm[i], vm)
                && forall|j: int| 0 <= j < i ==> member_passes(#[trigger] sm[j], vm)),
{
    match (schema, value) {
        (JsonValue::Array(t), JsonValue::Array(items)) => {
            if t.len() > 0 {
                lemma_items_validation(t[0], items);
            }
        },
        (JsonValue::Object(sm), JsonValue::Object(vm)) => {
            lemma_members_validation(sm, vm);
        },
        _ => {},
    }
}

/// Two values are of the same kind exactly when one JSON variant builds both: null and
/// null, two booleans, two numbers, two strings, two arrays or two objects. A boolean and a
/// number, for instance, never are, whatever they hold.
pub proof fn law_same_kind_is_same_variant(a: JsonValue, b: JsonValue)
    ensures
        same_kind(a, b) <==> ((a is Null && b is Null) || (a is Bool && b is Bool) || (a is Number
            && b is Number) || (a is String && b is String) || (a is Array && b is Array) || (
        a is Object && b is Object)),
{
}

/// What the variants alone decide: a schema other than null refuses with `TypeError` every
/// value built by another variant than its own (a boolean schema refuses a number, a number
/// schema a boolean, and so on); a boolean, number or string schema accepts every value of
/// its own variant, whatever either holds; an empty array schema accepts every array; and
/// whatever is accepted is accepted by a null schema or is of the schema's own variant.
pub proof fn law_validation_by_variant(schema: JsonValue, value: JsonValue)
    ensures
        !(schema is Null) && !((schema is Bool && value is Bool) || (schema is Number
            && value is Number) || (schema is String && value is String) || (schema is Array
            && value is Array) || (schema is Object && value is Object)) ==> validation(
            schema,
            value,
        ) == Err::<(), ParsonError>(ParsonError::TypeError),
        (schema is Bool && value is Bool) || (schema is Number && value is Number) || (
        schema is String && value is String) ==> validation(schema, value) == Ok::<
            (),
            ParsonError,
        >(()),
        schema is Array && value is Array && schema->Array_0.len() == 0 ==> validation(
            schema,
            value,
        ) == Ok::<(), ParsonError>(()),
        schema is Object && value is Object && schema->Object_0.len() == 0 ==> validation(
            schema,
            value,
        ) == Ok::<(), ParsonError>(()),
        validation(schema, value) is Ok ==> schema is Null || (schema is Bool && value is Bool)
            || (schema is Number && value is Number) || (schema is String && value is String)
            || (schema is Array && value is Array) || (schema is Object && value is Object),
{
    match (schema, value) {
        (JsonValue::Object(sm), JsonValue::Object(vm)) => {
            if sm.len() == 0 {
                assert(members_validation(sm, vm) == Ok::<(), ParsonError>(()));
            }
        },
        _ => {},
    }
}

/// What keys decide for an object schema and an object value: every key of the schema
/// must occur among the value's keys for the value to pass; a schema key that the value
/// lacks makes validation fail; and when the schema's first key is missing, the error is
/// `NotFound`. An empty object value passes only an empty object schema.
pub proof fn law_validation_keys(
    sm: Seq<(Seq<char>, JsonValue)>,
    vm: Seq<(Seq<char>, JsonValue)>,
)
    ensures
        validation(JsonValue::Object(sm), JsonValue::Object(vm)) is Ok ==> forall|i: int|
            0 <= i < sm.len() ==> exists|j: int| 0 <= j < vm.len() && (#[trigger] vm[j]).0 == (
            #[trigger] sm[i]).0,
        (exists|i: int|
            0 <= i < sm.len() && forall|j: int| 0 <= j < vm.len() ==> (#[trigger] vm[j]).0 != (
            #[trigger] sm[i]).0) ==> validation(JsonValue::Object(sm), JsonValue::Object(vm))
            is Err,
        sm.len() > 0 && (forall|j: int| 0 <= j < vm.len() ==> (#[trigger] vm[j]).0 != sm[0].0)
            ==> validation(JsonValue::Object(sm), JsonValue::Object(vm)) == Err::<(), ParsonError>(
            ParsonError::NotFound,
        ),
        vm.len() == 0 ==> (validation(JsonValue::Object(sm), JsonValue::Object(vm)) is Ok
            <==> sm.len() == 0),
{
    lemma_members_validation(sm, vm);
    assert forall|i: int| 0 <= i < sm.len() && member_passes(#[trigger] sm[i], vm) implies exists|
        j: int,
    | 0 <= j < vm.len() && (#[trigger] vm[j]).0 == sm[i].0 by {
        crate::parser::lemma_lookup_has_key(vm, sm[i].0);
    }
    assert forall|i: int|
        0 <= i < sm.len() && (forall|j: int| 0 <= j < vm.len() ==> (#[trigger] vm[j]).0 != sm[i].0)
        implies !member_passes(#[trigger] sm[i], vm) by {
        crate::parser::lemma_lookup_has_key(vm, sm[i].0);
    }
    if sm.len() > 0 {
        crate::parser::lemma_lookup_has_key(vm, sm[0].0);
        assert(!member_passes(sm[0], vm) ==> members_validation(sm, vm) == member_outcome(sm[0], vm));
    }
}

} // verus!
