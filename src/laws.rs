use vstd::prelude::*;

use crate::decoder::{
    apply_field, decode_spec, field_decoder, find_field, find_in, first_missing, lemma_find_in_range,
    record_spec, run,
};
use crate::plan::{names_distinct, plan_of, FieldDef, Plan, RecordDef, Strategy};
use crate::types::{eval_state, DecodeError, DecodedView, State, StateExpr, TypeRef, Value, WireField};

verus! {

/// How often a field named `name` occurs in the wire record `fs`.
pub open spec fn count(fs: Seq<WireField>, name: Seq<char>) -> nat
    decreases fs.len(),
{
    if fs.len() == 0 {
        0
    } else {
        count(fs.drop_last(), name) + if fs.last().name@ == name {
            1nat
        } else {
            0nat
        }
    }
}

/// What the planned field `j` decodes to from the wire value `v` under record state `st`.
pub open spec fn field_result(schema: Seq<Plan>, p: Plan, st: State, j: int, v: Value) -> Result<DecodedView, DecodeError> {
    decode_spec(schema, field_decoder(p.fields@[j], st).0, field_decoder(p.fields@[j], st).1, v)
}

/// Every wire field that the plan knows holds a value that its decoder accepts.
pub open spec fn values_ok(schema: Seq<Plan>, p: Plan, st: State, fs: Seq<WireField>) -> bool {
    forall|i: int|
        0 <= i < fs.len() && #[trigger] find_field(p, fs[i].name@) is Some ==> field_result(
            schema,
            p,
            st,
            find_field(p, fs[i].name@)->Some_0,
            fs[i].value,
        ) is Ok
}

/// The value of planned field `j` after reading `fs`: the decoded value of its
/// last occurrence.
pub open spec fn slot_of(schema: Seq<Plan>, p: Plan, st: State, fs: Seq<WireField>, j: int) -> Option<DecodedView>
    decreases fs.len(),
{
    if fs.len() == 0 {
        None
    } else if fs.last().name@ == p.fields@[j].name@ {
        Some(field_result(schema, p, st, j, fs.last().value)->Ok_0)
    } else {
        slot_of(schema, p, st, fs.drop_last(), j)
    }
}

/// The wire record `fs` without the fields that plan `p` lacks.
pub open spec fn known_only(p: Plan, fs: Seq<WireField>) -> Seq<WireField>
    decreases fs.len(),
{
    if fs.len() == 0 {
        fs
    } else if find_field(p, fs.last().name@) is Some {
        known_only(p, fs.drop_last()).push(fs.last())
    } else {
        known_only(p, fs.drop_last())
    }
}

proof fn lemma_plan_len(p: Plan)
    ensures
        p.fields@.len() <= usize::MAX,
{
    vstd::std_specs::vec::axiom_spec_len(&p.fields);
}

proof fn lemma_find_none(p: Plan, name: Seq<char>, n: int)
    requires
        0 <= n <= p.fields@.len(),
        find_in(p.fields@, name, n) is None,
    ensures
        forall|j: int| 0 <= j < n ==> (#[trigger] p.fields@[j]).name@ != name,
    decreases n,
{
    if n > 0 {
        lemma_find_none(p, name, n - 1);
    }
}

/// In a plan with distinct names, the field named like field `j` is found at `j`.
proof fn lemma_find_index(p: Plan, j: int)
    requires
        names_distinct(p),
        0 <= j < p.fields@.len(),
    ensures
        find_field(p, p.fields@[j].name@) == Some(j),
{
    let nm = p.fields@[j].name@;
    lemma_find_in_range(p.fields@, nm, p.fields@.len() as int);
    if find_field(p, nm) is None {
        lemma_find_none(p, nm, p.fields@.len() as int);
    }
}

proof fn lemma_count_prefix(fs: Seq<WireField>, name: Seq<char>)
    requires
        fs.len() > 0,
    ensures
        count(fs.drop_last(), name) <= count(fs, name),
{
}

proof fn lemma_count_zero(schema: Seq<Plan>, p: Plan, st: State, fs: Seq<WireField>, j: int)
    requires
        count(fs, p.fields@[j].name@) == 0,
    ensures
        slot_of(schema, p, st, fs, j) is None,
    decreases fs.len(),
{
    if fs.len() > 0 {
        lemma_count_zero(schema, p, st, fs.drop_last(), j);
    }
}

proof fn lemma_count_one(schema: Seq<Plan>, p: Plan, st: State, fs: Seq<WireField>, j: int, i: int)
    requires
        count(fs, p.fields@[j].name@) == 1,
        0 <= i < fs.len(),
        fs[i].name@ == p.fields@[j].name@,
    ensures
        slot_of(schema, p, st, fs, j) == Some(field_result(schema, p, st, j, fs[i].value)->Ok_0),
    decreases fs.len(),
{
    let pre = fs.drop_last();
    if i < fs.len() - 1 {
        lemma_count_positive(pre, p.fields@[j].name@, i);
        lemma_count_one(schema, p, st, pre, j, i);
    }
}

proof fn lemma_count_positive(fs: Seq<WireField>, name: Seq<char>, i: int)
    requires
        0 <= i < fs.len(),
        fs[i].name@ == name,
    ensures
        count(fs, name) >= 1,
    decreases fs.len(),
{
    if i < fs.len() - 1 {
        lemma_count_positive(fs.drop_last(), name, i);
    }
}

/// Reading a record where no planned field occurs twice and every planned
/// field's value is accepted fills each slot with its field's decoded value.
proof fn lemma_run_clean(schema: Seq<Plan>, p: Plan, st: State, fs: Seq<WireField>)
    requires
        names_distinct(p),
        values_ok(schema, p, st, fs),
        forall|j: int| 0 <= j < p.fields@.len() ==> count(fs, (#[trigger] p.fields@[j]).name@) <= 1,
    ensures
        run(schema, p, st, fs) == Ok::<Seq<Option<DecodedView>>, DecodeError>(
            Seq::new(p.fields@.len(), |j: int| slot_of(schema, p, st, fs, j)),
        ),
    decreases fs.len(),
{
    let n = p.fields@.len();
    if fs.len() == 0 {
        assert(Seq::new(n, |j: int| slot_of(schema, p, st, fs, j)) =~= Seq::new(n, |j: int| None::<DecodedView>));
    } else {
        let pre = fs.drop_last();
        let f = fs.last();
        assert forall|i: int|
            0 <= i < pre.len() && #[trigger] find_field(p, pre[i].name@) is Some implies field_result(
                schema,
                p,
                st,
                find_field(p, pre[i].name@)->Some_0,
                pre[i].value,
            ) is Ok by {
            assert(pre[i] == fs[i]);
        }
        assert forall|j: int| 0 <= j < n implies count(pre, (#[trigger] p.fields@[j]).name@) <= 1 by {
            lemma_count_prefix(fs, p.fields@[j].name@);
        }
        lemma_run_clean(schema, p, st, pre);
        let slots = Seq::new(n, |j: int| slot_of(schema, p, st, pre, j));
        match find_field(p, f.name@) {
            None => {
                lemma_find_none(p, f.name@, n as int);
                assert(Seq::new(n, |j: int| slot_of(schema, p, st, fs, j)) =~= slots);
            },
            Some(j0) => {
                lemma_plan_len(p);
                lemma_find_in_range(p.fields@, f.name@, n as int);
                assert(count(fs, p.fields@[j0].name@) <= 1);
                lemma_count_zero(schema, p, st, pre, j0);
                assert(values_ok(schema, p, st, fs));
                assert(find_field(p, fs[fs.len() - 1].name@) is Some);
                assert(field_result(schema, p, st, j0, f.value) is Ok);
                assert(Seq::new(n, |j: int| slot_of(schema, p, st, fs, j)) =~= slots.update(
                    j0,
                    Some(field_result(schema, p, st, j0, f.value)->Ok_0),
                ));
            },
        }
    }
}

proof fn lemma_all_present(slots: Seq<Option<DecodedView>>, n: int)
    requires
        0 <= n <= slots.len(),
        forall|j: int| 0 <= j < n ==> (#[trigger] slots[j]) is Some,
    ensures
        first_missing(slots, n) is None,
    decreases n,
{
    if n > 0 {
        lemma_all_present(slots, n - 1);
    }
}

proof fn lemma_one_absent(slots: Seq<Option<DecodedView>>, j0: int, n: int)
    requires
        0 <= j0 < n <= slots.len(),
        slots[j0] is None,
        forall|j: int| 0 <= j < slots.len() && j != j0 ==> (#[trigger] slots[j]) is Some,
    ensures
        first_missing(slots, n) == Some(j0),
    decreases n,
{
    if n - 1 > j0 {
        lemma_one_absent(slots, j0, n - 1);
    } else {
        lemma_all_present(slots, j0);
    }
}

/// A wire record that holds every planned field exactly once, each with a
/// value its decoder accepts, decodes to the planned fields' decoded values,
/// in declaration order, wherever they stand on the wire.
pub proof fn lemma_complete(schema: Seq<Plan>, p: Plan, st: State, fs: Seq<WireField>)
    requires
        names_distinct(p),
        values_ok(schema, p, st, fs),
        forall|j: int| 0 <= j < p.fields@.len() ==> count(fs, (#[trigger] p.fields@[j]).name@) == 1,
    ensures
        record_spec(schema, p, st, fs) is Ok,
        record_spec(schema, p, st, fs)->Ok_0.len() == p.fields@.len(),
        forall|i: int, j: int|
            0 <= i < fs.len() && 0 <= j < p.fields@.len() && fs[i].name@ == p.fields@[j].name@
                ==> (#[trigger] record_spec(schema, p, st, fs)->Ok_0[j]) == field_result(schema, p, st, j, #[trigger] fs[i].value)->Ok_0,
{
    let n = p.fields@.len();
    lemma_run_clean(schema, p, st, fs);
    let slots = Seq::new(n, |j: int| slot_of(schema, p, st, fs, j));
    assert forall|j: int| 0 <= j < n implies (#[trigger] slots[j]) is Some by {
        if slot_of(schema, p, st, fs, j) is None {
            lemma_count_zero_converse(schema, p, st, fs, j);
        }
    }
    lemma_all_present(slots, n as int);
    assert forall|i: int, j: int|
        0 <= i < fs.len() && 0 <= j < n && fs[i].name@ == p.fields@[j].name@
            implies (#[trigger] record_spec(schema, p, st, fs)->Ok_0[j]) == field_result(schema, p, st, j, #[trigger] fs[i].value)->Ok_0 by {
        lemma_count_one(schema, p, st, fs, j, i);
    }
}

proof fn lemma_count_zero_converse(schema: Seq<Plan>, p: Plan, st: State, fs: Seq<WireField>, j: int)
    requires
        count(fs, p.fields@[j].name@) >= 1,
    ensures
        slot_of(schema, p, st, fs, j) is Some,
    decreases fs.len(),
{
    if fs.len() > 0 && fs.last().name@ != p.fields@[j].name@ {
        lemma_count_zero_converse(schema, p, st, fs.drop_last(), j);
    }
}

/// A wire record that holds planned field `j0` twice or more fails with a
/// duplicate-field error naming it, wherever the repetition stands, when no
/// other planned field repeats and every planned field's value is accepted.
pub proof fn lemma_duplicate(schema: Seq<Plan>, p: Plan, st: State, fs: Seq<WireField>, j0: int)
    requires
        names_distinct(p),
        values_ok(schema, p, st, fs),
        0 <= j0 < p.fields@.len(),
        count(fs, p.fields@[j0].name@) >= 2,
        forall|j: int|
            0 <= j < p.fields@.len() && j != j0 ==> count(fs, (#[trigger] p.fields@[j]).name@) <= 1,
    ensures
        record_spec(schema, p, st, fs) matches Err(DecodeError::DuplicateField(n)) && n@ == p.fields@[j0].name@,
{
    lemma_run_duplicate(schema, p, st, fs, j0);
}

proof fn lemma_run_duplicate(schema: Seq<Plan>, p: Plan, st: State, fs: Seq<WireField>, j0: int)
    requires
        names_distinct(p),
        values_ok(schema, p, st, fs),
        0 <= j0 < p.fields@.len(),
        count(fs, p.fields@[j0].name@) >= 2,
        forall|j: int|
            0 <= j < p.fields@.len() && j != j0 ==> count(fs, (#[trigger] p.fields@[j]).name@) <= 1,
    ensures
        run(schema, p, st, fs) matches Err(DecodeError::DuplicateField(n)) && n@ == p.fields@[j0].name@,
    decreases fs.len(),
{
    let n = p.fields@.len();
    let nm = p.fields@[j0].name@;
    let pre = fs.drop_last();
    let f = fs.last();
    assert forall|i: int|
        0 <= i < pre.len() && #[trigger] find_field(p, pre[i].name@) is Some implies field_result(
            schema,
            p,
            st,
            find_field(p, pre[i].name@)->Some_0,
            pre[i].value,
        ) is Ok by {
        assert(pre[i] == fs[i]);
    }
    assert forall|j: int| 0 <= j < n && j != j0 implies count(pre, (#[trigger] p.fields@[j]).name@) <= 1 by {
        lemma_count_prefix(fs, p.fields@[j].name@);
    }
    if count(pre, nm) >= 2 {
        lemma_run_duplicate(schema, p, st, pre, j0);
    } else {
        assert(f.name@ == nm);
        assert forall|j: int| 0 <= j < n implies count(pre, (#[trigger] p.fields@[j]).name@) <= 1 by {
            lemma_count_prefix(fs, p.fields@[j].name@);
        }
        lemma_run_clean(schema, p, st, pre);
        lemma_count_zero_converse(schema, p, st, pre, j0);
        lemma_find_index(p, j0);
        lemma_plan_len(p);
    }
}

/// A wire record that lacks planned field `j0` fails with a missing-field
/// error naming exactly that field, when every other planned field occurs
/// once with a value its decoder accepts.
pub proof fn lemma_missing(schema: Seq<Plan>, p: Plan, st: State, fs: Seq<WireField>, j0: int)
    requires
        names_distinct(p),
        values_ok(schema, p, st, fs),
        0 <= j0 < p.fields@.len(),
        count(fs, p.fields@[j0].name@) == 0,
        forall|j: int|
            0 <= j < p.fields@.len() && j != j0 ==> count(fs, (#[trigger] p.fields@[j]).name@) == 1,
    ensures
        record_spec(schema, p, st, fs) == Err::<Seq<DecodedView>, DecodeError>(DecodeError::MissingField(p.fields@[j0].name)),
{
    let n = p.fields@.len();
    lemma_run_clean(schema, p, st, fs);
    let slots = Seq::new(n, |j: int| slot_of(schema, p, st, fs, j));
    lemma_count_zero(schema, p, st, fs, j0);
    assert forall|j: int| 0 <= j < n && j != j0 implies (#[trigger] slots[j]) is Some by {
        lemma_count_zero_converse(schema, p, st, fs, j);
    }
    lemma_one_absent(slots, j0, n as int);
}

/// Fields that the plan lacks change nothing: a wire record decodes as the
/// same record with those fields removed, wherever they stood.
pub proof fn lemma_unknown_ignored(schema: Seq<Plan>, p: Plan, st: State, fs: Seq<WireField>)
    ensures
        record_spec(schema, p, st, fs) == record_spec(schema, p, st, known_only(p, fs)),
{
    lemma_run_known(schema, p, st, fs);
}

proof fn lemma_run_known(schema: Seq<Plan>, p: Plan, st: State, fs: Seq<WireField>)
    ensures
        run(schema, p, st, fs) == run(schema, p, st, known_only(p, fs)),
    decreases fs.len(),
{
    if fs.len() > 0 {
        let pre = fs.drop_last();
        lemma_run_known(schema, p, st, pre);
        if find_field(p, fs.last().name@) is Some {
            let k = known_only(p, pre).push(fs.last());
            assert(k.drop_last() =~= known_only(p, pre));
        }
    }
}

/// A field that names its own decoder is decoded by that decoder, with the
/// empty state, whatever its declared type and the record's state.
pub proof fn lemma_factory_wins(def: RecordDef, p: Plan, j: int, t: TypeRef, st: State)
    requires
        plan_of(def, p),
        0 <= j < def.fields@.len(),
        def.fields@[j].factory == Some(t),
    ensures
        p.fields@[j].strategy == Strategy::Factory(t),
        field_decoder(p.fields@[j], st) == (t, State::Unit),
{
    assert(p.fields@[j].strategy == crate::plan::strategy_of(def.fields@[j]));
}

/// A field decoded by its type's own decoder hands that decoder the state
/// its state expression yields from the record's state.
pub proof fn lemma_state_reaches_field(p: Plan, j: int, t: TypeRef, st: State)
    requires
        0 <= j < p.fields@.len(),
        p.fields@[j].strategy == Strategy::Nested(t),
    ensures
        field_decoder(p.fields@[j], st) == (t, eval_state(p.fields@[j].state_expr, st)),
{
}

/// Changing the record's state changes what a field that inherits it
/// accepts: a bounded field takes a long under one bound and rejects it under
/// a lower one.
pub proof fn lemma_state_changes_outcome(
    schema: Seq<Plan>,
    p: Plan,
    slots: Seq<Option<DecodedView>>,
    f: WireField,
    j: int,
    x: i64,
    lo: i64,
    hi: i64,
)
    requires
        names_distinct(p),
        0 <= j < p.fields@.len() == slots.len(),
        p.fields@[j].strategy == Strategy::Nested(TypeRef::AtMost),
        p.fields@[j].state_expr == StateExpr::Inherit,
        slots[j] is None,
        f.name@ == p.fields@[j].name@,
        f.value == Value::Long(x),
        lo < x <= hi,
    ensures
        apply_field(schema, p, State::Int(hi), slots, f) == Ok::<Seq<Option<DecodedView>>, DecodeError>(
            slots.update(j, Some(DecodedView::Long(x))),
        ),
        apply_field(schema, p, State::Int(lo), slots, f) == Err::<Seq<Option<DecodedView>>, DecodeError>(
            DecodeError::AboveLimit,
        ),
{
    lemma_find_index(p, j);
    lemma_plan_len(p);
}

} // verus!
