use vstd::prelude::*;

use crate::plan::{FieldPlan, Plan, Strategy};
use crate::types::{
    eval_state, lemma_views_of, views_of, DecodeError, Decoded, DecodedView, State, TypeRef, Value, WireField,
};

verus! {

broadcast use vstd::std_specs::vec::group_vec_axioms, vstd::seq::group_seq_axioms;

/// What the record decoder asks its driver to do with one wire field.
#[derive(Debug)]
pub enum Action {
    /// The field is not in the plan: discard its value.
    Skip,
    /// Decode the value with `decoder` under `state`, and store it in slot `index`.
    Decode { index: usize, decoder: TypeRef, state: State },
}

/// The decoder and state that the field planned as `fp` hands its wire value
/// to, when the record decoder's own state is `st`.
pub open spec fn field_decoder(fp: FieldPlan, st: State) -> (TypeRef, State) {
    match fp.strategy {
        Strategy::Factory(t) => (t, State::Unit),
        Strategy::Text => (TypeRef::Text, State::Unit),
        Strategy::Nested(t) => (t, eval_state(fp.state_expr, st)),
    }
}

/// The first of the first `n` planned fields that is named `name`.
pub open spec fn find_in(fields: Seq<FieldPlan>, name: Seq<char>, n: int) -> Option<int>
    decreases n,
{
    if n <= 0 {
        None
    } else {
        match find_in(fields, name, n - 1) {
            Some(j) => Some(j),
            None => if fields[n - 1].name@ == name {
                Some(n - 1)
            } else {
                None
            },
        }
    }
}

/// The planned field named `name`, if any.
pub open spec fn find_field(p: Plan, name: Seq<char>) -> Option<int> {
    find_in(p.fields@, name, p.fields@.len() as int)
}

/// A long under the bound that `st` carries, if any.
pub open spec fn bounded(x: i64, st: State) -> Result<DecodedView, DecodeError> {
    match st {
        State::Int(b) => if x > b {
            Err(DecodeError::AboveLimit)
        } else {
            Ok(DecodedView::Long(x))
        },
        State::Unit => Ok(DecodedView::Long(x)),
    }
}

/// What the decoder of `t` makes of the wire value `v` under state `st`; the
/// record types that `t` may name are those of `schema`.
pub open spec fn decode_spec(schema: Seq<Plan>, t: TypeRef, st: State, v: Value) -> Result<
    DecodedView,
    DecodeError,
>
    decreases v,
{
    match t {
        TypeRef::Boolean => match v {
            Value::Boolean(b) => Ok(DecodedView::Boolean(b)),
            _ => Err(DecodeError::Mismatch),
        },
        TypeRef::Int => match v {
            Value::Int(i) => Ok(DecodedView::Int(i)),
            Value::Long(l) => if i32::MIN <= l <= i32::MAX {
                Ok(DecodedView::Int(l as i32))
            } else {
                Err(DecodeError::OutOfRange)
            },
            _ => Err(DecodeError::Mismatch),
        },
        TypeRef::Long => match v {
            Value::Int(i) => Ok(DecodedView::Long(i as i64)),
            Value::Long(l) => Ok(DecodedView::Long(l)),
            _ => Err(DecodeError::Mismatch),
        },
        TypeRef::Text => match v {
            Value::Str(s) => Ok(DecodedView::Text(s@)),
            _ => Err(DecodeError::Mismatch),
        },
        TypeRef::AtMost => match v {
            Value::Int(i) => bounded(i as i64, st),
            Value::Long(l) => bounded(l, st),
            _ => Err(DecodeError::Mismatch),
        },
        TypeRef::Record(k) => match v {
            Value::Record(fs) => if k < schema.len() {
                match run(schema, schema[k as int], st, fs@) {
                    Err(e) => Err(e),
                    Ok(slots) => match assemble(schema[k as int], slots) {
                        Err(e) => Err(e),
                        Ok(vals) => Ok(DecodedView::Record(vals)),
                    },
                }
            } else {
                Err(DecodeError::UnknownType)
            },
            _ => Err(DecodeError::Mismatch),
        },
    }
}

/// Slots for every planned field, all empty.
pub open spec fn empty_slots(p: Plan) -> Seq<Option<DecodedView>> {
    Seq::new(p.fields@.len(), |j: int| None)
}

/// What the record decoder does on a wire field named `name`, given its slots.
pub open spec fn action_for(p: Plan, st: State, slots: Seq<Option<DecodedView>>, name: String) -> Result<
    Action,
    DecodeError,
> {
    match find_field(p, name@) {
        None => Ok(Action::Skip),
        Some(j) => if slots[j] is Some {
            Err(DecodeError::DuplicateField(name))
        } else {
            Ok(
                Action::Decode {
                    index: j as usize,
                    decoder: field_decoder(p.fields@[j], st).0,
                    state: field_decoder(p.fields@[j], st).1,
                },
            )
        },
    }
}

/// The slots after reading the wire fields `fs` in order by plan `p`, or the
/// first error.
pub open spec fn run(schema: Seq<Plan>, p: Plan, st: State, fs: Seq<WireField>) -> Result<
    Seq<Option<DecodedView>>,
    DecodeError,
>
    decreases fs,
{
    if fs.len() == 0 {
        Ok(empty_slots(p))
    } else {
        match run(schema, p, st, fs.drop_last()) {
            Err(e) => Err(e),
            Ok(slots) => {
                let f = fs.last();
                match action_for(p, st, slots, f.name) {
                    Err(e) => Err(e),
                    Ok(Action::Skip) => Ok(slots),
                    Ok(Action::Decode { index, decoder, state }) => match decode_spec(
                        schema,
                        decoder,
                        state,
                        f.value,
                    ) {
                        Err(e) => Err(e),
                        Ok(d) => Ok(slots.update(index as int, Some(d))),
                    },
                }
            },
        }
    }
}

/// The slots after the wire field `f` has been read into `slots`.
pub open spec fn apply_field(
    schema: Seq<Plan>,
    p: Plan,
    st: State,
    slots: Seq<Option<DecodedView>>,
    f: WireField,
) -> Result<Seq<Option<DecodedView>>, DecodeError> {
    match action_for(p, st, slots, f.name) {
        Err(e) => Err(e),
        Ok(Action::Skip) => Ok(slots),
        Ok(Action::Decode { index, decoder, state }) => match decode_spec(schema, decoder, state, f.value) {
            Err(e) => Err(e),
            Ok(d) => Ok(slots.update(index as int, Some(d))),
        },
    }
}

/// The first of the first `n` slots that is empty.
pub open spec fn first_missing(slots: Seq<Option<DecodedView>>, n: int) -> Option<int>
    decreases n,
{
    if n <= 0 {
        None
    } else {
        match first_missing(slots, n - 1) {
            Some(j) => Some(j),
            None => if slots[n - 1] is None {
                Some(n - 1)
            } else {
                None
            },
        }
    }
}

/// The record assembled from full slots, or the error for the first empty one.
pub open spec fn assemble(p: Plan, slots: Seq<Option<DecodedView>>) -> Result<Seq<DecodedView>, DecodeError> {
    match first_missing(slots, slots.len() as int) {
        Some(j) => Err(DecodeError::MissingField(p.fields@[j].name)),
        None => Ok(Seq::new(slots.len(), |j: int| slots[j]->Some_0)),
    }
}

/// What decoding the wire record `fs` by plan `p` under state `st` yields.
pub open spec fn record_spec(schema: Seq<Plan>, p: Plan, st: State, fs: Seq<WireField>) -> Result<
    Seq<DecodedView>,
    DecodeError,
> {
    match run(schema, p, st, fs) {
        Err(e) => Err(e),
        Ok(slots) => assemble(p, slots),
    }
}

/// The views of a slot sequence.
pub open spec fn slot_views(s: Seq<Option<Decoded>>) -> Seq<Option<DecodedView>> {
    Seq::new(
        s.len(),
        |j: int|
            match s[j] {
                Some(d) => Some(d@),
                None => None,
            },
    )
}

/// The view of a decoded value or error.
pub open spec fn result_view(r: Result<Decoded, DecodeError>) -> Result<DecodedView, DecodeError> {
    match r {
        Ok(d) => Ok(d@),
        Err(e) => Err(e),
    }
}

/// The view of a decoded record or error.
pub open spec fn record_view(r: Result<Vec<Decoded>, DecodeError>) -> Result<Seq<DecodedView>, DecodeError> {
    match r {
        Ok(vs) => Ok(views_of(vs@)),
        Err(e) => Err(e),
    }
}

/// The instance that decodes one record: the state it was made with and one
/// slot per planned field.
#[derive(Debug)]
pub struct RecordDecoder {
    pub state: State,
    pub slots: Vec<Option<Decoded>>,
}

fn find_index(p: &Plan, name: &String) -> (r: Option<usize>)
    ensures
        match find_field(*p, name@) {
            Some(j) => r is Some && r->Some_0 as int == j,
            None => r is None,
        },
{
    let mut i: usize = 0;
    while i < p.fields.len()
        invariant
            i <= p.fields@.len(),
            find_in(p.fields@, name@, i as int) is None,
        decreases p.fields@.len() - i,
    {
        if p.fields[i].name == *name {
            proof {
                lemma_find_stays(p.fields@, name@, i as int + 1, p.fields@.len() as int);
            }
            return Some(i);
        }
        i = i + 1;
    }
    None
}

proof fn lemma_find_stays(fields: Seq<FieldPlan>, name: Seq<char>, n: int, m: int)
    requires
        0 <= n <= m,
    ensures
        find_in(fields, name, n) is Some ==> find_in(fields, name, m) == find_in(fields, name, n),
    decreases m - n,
{
    if n < m {
        lemma_find_stays(fields, name, n, m - 1);
    }
}

pub(crate) proof fn lemma_find_in_range(fields: Seq<FieldPlan>, name: Seq<char>, n: int)
    requires
        0 <= n <= fields.len(),
    ensures
        find_in(fields, name, n) is Some ==> {
            let j = find_in(fields, name, n)->Some_0;
            0 <= j < n && fields[j].name@ == name
        },
    decreases n,
{
    if n > 0 {
        lemma_find_in_range(fields, name, n - 1);
    }
}

proof fn lemma_missing_stays(slots: Seq<Option<DecodedView>>, n: int, m: int)
    requires
        0 <= n <= m,
    ensures
        first_missing(slots, n) is Some ==> first_missing(slots, m) == first_missing(slots, n),
    decreases m - n,
{
    if n < m {
        lemma_missing_stays(slots, n, m - 1);
    }
}

proof fn lemma_none_missing(slots: Seq<Option<DecodedView>>, n: int)
    requires
        0 <= n <= slots.len(),
        first_missing(slots, n) is None,
    ensures
        forall|j: int| 0 <= j < n ==> (#[trigger] slots[j]) is Some,
    decreases n,
{
    if n > 0 {
        lemma_none_missing(slots, n - 1);
    }
}

fn decoder_for(fp: &FieldPlan, st: State) -> (r: (TypeRef, State))
    ensures
        r == field_decoder(*fp, st),
{
    match fp.strategy {
        Strategy::Factory(t) => (t, State::Unit),
        Strategy::Text => (TypeRef::Text, State::Unit),
        Strategy::Nested(t) => (t, fp.state_expr.eval(st)),
    }
}

impl RecordDecoder {
    /// A decoder for one record of plan `p`, with all slots empty.
    pub fn new(p: &Plan, state: State) -> (r: RecordDecoder)
        ensures
            r.state == state,
            r.slots@.len() == p.fields@.len(),
            slot_views(r.slots@) == empty_slots(*p),
    {
        let mut slots: Vec<Option<Decoded>> = Vec::new();
        let mut i: usize = 0;
        while i < p.fields.len()
            invariant
                i <= p.fields@.len(),
                slots@ == Seq::new(i as nat, |j: int| None::<Decoded>),
            decreases p.fields@.len() - i,
        {
            slots.push(None);
            i = i + 1;
            assert(slots@ =~= Seq::new(i as nat, |j: int| None::<Decoded>));
        }
        assert(slot_views(slots@) =~= empty_slots(*p));
        RecordDecoder { state, slots }
    }

    /// Decides what to do with the wire field named `name`: skip it, decode it
    /// into its slot, or fail because its slot is already filled.
    pub fn next(&self, p: &Plan, name: &String) -> (r: Result<Action, DecodeError>)
        requires
            self.slots@.len() == p.fields@.len(),
        ensures
            r == action_for(*p, self.state, slot_views(self.slots@), *name),
    {
        match find_index(p, name) {
            None => Ok(Action::Skip),
            Some(j) => {
                proof {
                    lemma_find_in_range(p.fields@, name@, p.fields@.len() as int);
                }
                if self.slots[j].is_some() {
                    Err(DecodeError::DuplicateField(name.clone()))
                } else {
                    let (t, s) = decoder_for(&p.fields[j], self.state);
                    Ok(Action::Decode { index: j, decoder: t, state: s })
                }
            },
        }
    }

    /// Stores a decoded value in slot `index`.
    pub fn store(&mut self, index: usize, v: Decoded)
        requires
            index < old(self).slots@.len(),
        ensures
            final(self).state == old(self).state,
            final(self).slots@ == old(self).slots@.update(index as int, Some(v)),
    {
        self.slots.set(index, Some(v));
    }

    /// Drains the slots into the record's field values in plan order, or
    /// fails naming the first planned field whose slot is empty.
    pub fn finish(self, p: &Plan) -> (r: Result<Vec<Decoded>, DecodeError>)
        requires
            self.slots@.len() == p.fields@.len(),
        ensures
            record_view(r) == assemble(*p, slot_views(self.slots@)),
    {
        let ghost views = slot_views(self.slots@);
        let mut i: usize = 0;
        while i < p.fields.len()
            invariant
                i <= p.fields@.len() == self.slots@.len() == views.len(),
                views == slot_views(self.slots@),
                first_missing(views, i as int) is None,
            decreases p.fields@.len() - i,
        {
            proof {
                lemma_missing_stays(views, i as int + 1, views.len() as int);
            }
            if self.slots[i].is_none() {
                return Err(DecodeError::MissingField(p.fields[i].name.clone()));
            }
            i = i + 1;
        }
        proof {
            lemma_none_missing(views, views.len() as int);
        }
        let ghost all = self.slots@;
        let mut slots = self.slots;
        let mut out: Vec<Decoded> = Vec::new();
        let mut i: usize = 0;
        while i < p.fields.len()
            invariant
                i <= p.fields@.len() == all.len() == views.len(),
                views == slot_views(all),
                slots@ == all.subrange(i as int, all.len() as int),
                forall|j: int| 0 <= j < all.len() ==> (#[trigger] views[j]) is Some,
                out@.len() == i,
                forall|j: int| 0 <= j < i ==> Some((#[trigger] out@[j])@) == views[j],
            decreases p.fields@.len() - i,
        {
            let v = slots.remove(0);
            assert(views[i as int] is Some);
            if let Some(d) = v {
                out.push(d);
            }
            i = i + 1;
            assert(slots@ =~= all.subrange(i as int, all.len() as int));
        }
        proof {
            lemma_views_of(out@);
            assert(views_of(out@) =~= Seq::new(views.len(), |j: int| views[j]->Some_0));
        }
        Ok(out)
    }
}

fn check_bound(x: i64, st: State) -> (r: Result<Decoded, DecodeError>)
    ensures
        result_view(r) == bounded(x, st),
{
    match st {
        State::Int(b) => if x > b {
            Err(DecodeError::AboveLimit)
        } else {
            Ok(Decoded::Long(x))
        },
        State::Unit => Ok(Decoded::Long(x)),
    }
}

/// Decodes the wire value `v` with the decoder of `t` under state `st`; a
/// record type that `t` names is looked up in `schema` and decoded by its
/// plan, fields in turn by their own decoders.
pub fn decode_value(schema: &Vec<Plan>, t: TypeRef, st: State, v: &Value) -> (r: Result<Decoded, DecodeError>)
    ensures
        result_view(r) == decode_spec(schema@, t, st, *v),
    decreases v,
{
    match t {
        TypeRef::Boolean => match v {
            Value::Boolean(b) => Ok(Decoded::Boolean(*b)),
            _ => Err(DecodeError::Mismatch),
        },
        TypeRef::Int => match v {
            Value::Int(i) => Ok(Decoded::Int(*i)),
            Value::Long(l) => if i32::MIN as i64 <= *l && *l <= i32::MAX as i64 {
                Ok(Decoded::Int(*l as i32))
            } else {
                Err(DecodeError::OutOfRange)
            },
            _ => Err(DecodeError::Mismatch),
        },
        TypeRef::Long => match v {
            Value::Int(i) => Ok(Decoded::Long(*i as i64)),
            Value::Long(l) => Ok(Decoded::Long(*l)),
            _ => Err(DecodeError::Mismatch),
        },
        TypeRef::Text => match v {
            Value::Str(s) => Ok(Decoded::Text(s.clone())),
            _ => Err(DecodeError::Mismatch),
        },
        TypeRef::AtMost => match v {
            Value::Int(i) => check_bound(*i as i64, st),
            Value::Long(l) => check_bound(*l, st),
            _ => Err(DecodeError::Mismatch),
        },
        TypeRef::Record(k) => match v {
            Value::Record(fs) => if k < schema.len() {
                match decode_record(schema, &schema[k], st, fs) {
                    Err(e) => Err(e),
                    Ok(vals) => Ok(Decoded::Record(vals)),
                }
            } else {
                Err(DecodeError::UnknownType)
            },
            _ => Err(DecodeError::Mismatch),
        },
    }
}

/// Once reading a prefix of `fs` fails, reading any longer prefix fails the same way.
proof fn lemma_run_err_stays(schema: Seq<Plan>, p: Plan, st: State, fs: Seq<WireField>, n: int, m: int)
    requires
        0 <= n <= m <= fs.len(),
    ensures
        run(schema, p, st, fs.take(n)) is Err ==> run(schema, p, st, fs.take(m)) == run(schema, p, st, fs.take(n)),
    decreases m - n,
{
    if n < m {
        lemma_run_err_stays(schema, p, st, fs, n, m - 1);
        assert(fs.take(m).drop_last() =~= fs.take(m - 1));
    }
}

/// Decodes the wire record `fields` by plan `p`, with `state` as the record
/// decoder's state: reads the fields in wire order, skipping those the plan
/// lacks, then assembles the planned fields in declaration order. Record
/// types that fields name are looked up in `schema`.
pub fn decode_record(schema: &Vec<Plan>, p: &Plan, state: State, fields: &Vec<WireField>) -> (r: Result<
    Vec<Decoded>,
    DecodeError,
>)
    ensures
        record_view(r) == record_spec(schema@, *p, state, fields@),
    decreases fields,
{
    let mut d = RecordDecoder::new(p, state);
    let mut i: usize = 0;
    while i < fields.len()
        invariant
            i <= fields@.len(),
            d.state == state,
            d.slots@.len() == p.fields@.len(),
            run(schema@, *p, state, fields@.take(i as int)) == Ok::<Seq<Option<DecodedView>>, DecodeError>(
                slot_views(d.slots@),
            ),
        decreases fields@.len() - i,
    {
        let f = &fields[i];
        proof {
            assert(fields@.take(i as int + 1).drop_last() =~= fields@.take(i as int));
            assert(fields@.take(i as int + 1).last() == fields@[i as int]);
            lemma_run_err_stays(schema@, *p, state, fields@, i as int + 1, fields@.len() as int);
            assert(fields@.take(fields@.len() as int) =~= fields@);
            lemma_find_in_range(p.fields@, f.name@, p.fields@.len() as int);
        }
        match d.next(p, &f.name) {
            Err(e) => {
                return Err(e);
            },
            Ok(Action::Skip) => {},
            Ok(Action::Decode { index, decoder, state: sub }) => {
                match decode_value(schema, decoder, sub, &f.value) {
                    Err(e) => {
                        return Err(e);
                    },
                    Ok(v) => {
                        let ghost before = d.slots@;
                        d.store(index, v);
                        proof {
                            assert(slot_views(d.slots@) =~= slot_views(before).update(index as int, Some(v@)));
                        }
                    },
                }
            },
        }
        i = i + 1;
    }
    proof {
        assert(fields@.take(fields@.len() as int) =~= fields@);
    }
    d.finish(p)
}

} // verus!
