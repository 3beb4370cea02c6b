use vstd::prelude::*;
use vstd::string::StringExecFns;

use crate::types::{eval_state, BuildError, StateExpr, StateKind, TypeRef};

verus! {

/// One declared field of a record type.
#[derive(Debug)]
pub struct FieldDef {
    pub name: String,
    /// The field's declared type.
    pub ty: TypeRef,
    /// A decoder named on the field itself, which takes precedence over the type.
    pub factory: Option<TypeRef>,
    /// How the field's decoder state is derived; the empty state when absent.
    pub state_expr: Option<StateExpr>,
}

/// A record type's declaration: its name, the type of its decoder's state and
/// its fields in declaration order.
#[derive(Debug)]
pub struct RecordDef {
    pub name: String,
    pub state_kind: StateKind,
    pub fields: Vec<FieldDef>,
}

/// How a field's wire value is turned into the field's value.
#[derive(Clone, Copy, Debug, PartialEq, Eq, Structural)]
pub enum Strategy {
    /// The named decoder, with the empty state.
    Factory(TypeRef),
    /// A scalar string.
    Text,
    /// The field type's own decoder, with the field's derived state.
    Nested(TypeRef),
}

/// The plan for one field.
#[derive(Debug)]
pub struct FieldPlan {
    pub name: String,
    pub strategy: Strategy,
    pub state_expr: StateExpr,
}

/// The decoding plan of one record type, built once and shared by every
/// decode of that type.
#[derive(Debug)]
pub struct Plan {
    pub name: String,
    /// The name of the record type's decoder: the type's name with a suffix.
    pub decoder_name: String,
    pub state_kind: StateKind,
    pub fields: Vec<FieldPlan>,
}

/// The strategy a field gets: its own decoder first, then text, then its type.
pub open spec fn strategy_of(f: FieldDef) -> Strategy {
    match f.factory {
        Some(t) => Strategy::Factory(t),
        None => if f.ty == TypeRef::Text {
            Strategy::Text
        } else {
            Strategy::Nested(f.ty)
        },
    }
}

pub open spec fn state_expr_of(f: FieldDef) -> StateExpr {
    match f.state_expr {
        Some(e) => e,
        None => StateExpr::Unit,
    }
}

/// The type of state that the decoder of `t` takes, if `schema` knows `t`.
pub open spec fn state_kind_for(schema: Seq<Plan>, t: TypeRef) -> Option<StateKind> {
    match t {
        TypeRef::AtMost => Some(StateKind::Int),
        TypeRef::Record(k) => if k < schema.len() {
            Some(schema[k as int].state_kind)
        } else {
            None
        },
        _ => Some(StateKind::Unit),
    }
}

/// The error that the field at `i` of `def` raises on its own, if any.
pub open spec fn field_error(schema: Seq<Plan>, def: RecordDef, i: int) -> Option<BuildError> {
    let f = def.fields@[i];
    if f.name@.len() == 0 {
        Some(BuildError::UnnamedField(i as usize))
    } else if exists|j: int| 0 <= j < i && #[trigger] def.fields@[j].name@ == f.name@ {
        Some(BuildError::DuplicateField(f.name))
    } else {
        match strategy_of(f) {
            Strategy::Text => None,
            Strategy::Factory(t) => match state_kind_for(schema, t) {
                None => Some(BuildError::UnknownType(f.name)),
                Some(k) => if k == StateKind::Unit {
                    None
                } else {
                    Some(BuildError::StateMismatch(f.name))
                },
            },
            Strategy::Nested(t) => match state_kind_for(schema, t) {
                None => Some(BuildError::UnknownType(f.name)),
                Some(k) => if k == state_expr_of(f).spec_kind(def.state_kind) {
                    None
                } else {
                    Some(BuildError::StateMismatch(f.name))
                },
            },
        }
    }
}

/// The first error among the first `n` fields of `def`.
pub open spec fn first_error(schema: Seq<Plan>, def: RecordDef, n: int) -> Option<BuildError>
    decreases n,
{
    if n <= 0 {
        None
    } else {
        match first_error(schema, def, n - 1) {
            Some(e) => Some(e),
            None => field_error(schema, def, n - 1),
        }
    }
}

/// Field names of a plan are pairwise distinct.
pub open spec fn names_distinct(p: Plan) -> bool {
    forall|i: int, j: int|
        0 <= i < p.fields@.len() && 0 <= j < p.fields@.len() && i != j
            ==> #[trigger] p.fields@[i].name@ != #[trigger] p.fields@[j].name@
}

/// `p` is the plan of `def`.
pub open spec fn plan_of(def: RecordDef, p: Plan) -> bool {
    &&& p.name@ == def.name@
    &&& p.decoder_name@ == def.name@ + "_DECODER"@
    &&& p.state_kind == def.state_kind
    &&& p.fields@.len() == def.fields@.len()
    &&& forall|i: int|
        0 <= i < def.fields@.len() ==> {
            &&& (#[trigger] p.fields@[i]).name@ == def.fields@[i].name@
            &&& p.fields@[i].strategy == strategy_of(def.fields@[i])
            &&& p.fields@[i].state_expr == state_expr_of(def.fields@[i])
        }
}

fn field_strategy(f: &FieldDef) -> (r: Strategy)
    ensures
        r == strategy_of(*f),
{
    match f.factory {
        Some(t) => Strategy::Factory(t),
        None => if f.ty == TypeRef::Text {
            Strategy::Text
        } else {
            Strategy::Nested(f.ty)
        },
    }
}

fn kind_for(schema: &Vec<Plan>, t: TypeRef) -> (r: Option<StateKind>)
    ensures
        r == state_kind_for(schema@, t),
{
    match t {
        TypeRef::AtMost => Some(StateKind::Int),
        TypeRef::Record(k) => if k < schema.len() {
            Some(schema[k].state_kind)
        } else {
            None
        },
        _ => Some(StateKind::Unit),
    }
}

fn check_field(schema: &Vec<Plan>, def: &RecordDef, i: usize) -> (r: Option<BuildError>)
    requires
        i < def.fields@.len(),
    ensures
        r == field_error(schema@, *def, i as int),
{
    let f = &def.fields[i];
    if f.name.as_str().is_empty() {
        return Some(BuildError::UnnamedField(i));
    }
    let mut j: usize = 0;
    while j < i
        invariant
            j <= i < def.fields@.len(),
            f == def.fields@[i as int],
            f.name@.len() != 0,
            forall|m: int| 0 <= m < j ==> def.fields@[m].name@ != f.name@,
        decreases i - j,
    {
        if def.fields[j].name == f.name {
            assert(def.fields@[j as int].name@ == f.name@);
            assert(exists|m: int| 0 <= m < i && #[trigger] def.fields@[m].name@ == def.fields@[i as int].name@);
            assert(f.name@.len() != 0);
            assert(def.fields@[i as int].name@.len() != 0);
            assert(field_error(schema@, *def, i as int) == Some(BuildError::DuplicateField(f.name)));
            return Some(BuildError::DuplicateField(f.name.clone()));
        }
        j = j + 1;
    }
    match field_strategy(f) {
        Strategy::Text => None,
        Strategy::Factory(t) => match kind_for(schema, t) {
            None => Some(BuildError::UnknownType(f.name.clone())),
            Some(k) => if k == StateKind::Unit {
                None
            } else {
                Some(BuildError::StateMismatch(f.name.clone()))
            },
        },
        Strategy::Nested(t) => {
            let e = match f.state_expr {
                Some(e) => e,
                None => StateExpr::Unit,
            };
            match kind_for(schema, t) {
                None => Some(BuildError::UnknownType(f.name.clone())),
                Some(k) => if k == e.kind(def.state_kind) {
                    None
                } else {
                    Some(BuildError::StateMismatch(f.name.clone()))
                },
            }
        },
    }
}

/// Derives the decoding plan of the record type declared as `def`, whose
/// fields may name the record types of `schema`.
///
/// Fails with the error of the first field, in declaration order, that has an
/// empty name, repeats an earlier name, names a type that `schema` lacks, or
/// hands its decoder a state of the wrong type.
pub fn derive_decodeable(def: &RecordDef, schema: &Vec<Plan>) -> (r: Result<Plan, BuildError>)
    ensures
        match first_error(schema@, *def, def.fields@.len() as int) {
            Some(e) => r == Err::<Plan, BuildError>(e),
            None => r is Ok && plan_of(*def, r->Ok_0) && names_distinct(r->Ok_0),
        },
{
    let mut fields: Vec<FieldPlan> = Vec::new();
    let mut i: usize = 0;
    while i < def.fields.len()
        invariant
            i <= def.fields@.len(),
            first_error(schema@, *def, i as int) is None,
            fields@.len() == i,
            forall|m: int|
                0 <= m < i ==> {
                    &&& (#[trigger] fields@[m]).name@ == def.fields@[m].name@
                    &&& fields@[m].strategy == strategy_of(def.fields@[m])
                    &&& fields@[m].state_expr == state_expr_of(def.fields@[m])
                },
            forall|a: int, b: int|
                0 <= a < i && 0 <= b < i && a != b
                    ==> #[trigger] fields@[a].name@ != #[trigger] fields@[b].name@,
        decreases def.fields@.len() - i,
    {
        proof {
            lemma_first_error_stays(schema@, *def, i as int + 1, def.fields@.len() as int);
        }
        match check_field(schema, def, i) {
            Some(e) => {
                return Err(e);
            },
            None => {},
        }
        let f = &def.fields[i];
        let e = match f.state_expr {
            Some(e) => e,
            None => StateExpr::Unit,
        };
        fields.push(FieldPlan { name: f.name.clone(), strategy: field_strategy(f), state_expr: e });
        proof {
            assert forall|a: int, b: int|
                0 <= a < i + 1 && 0 <= b < i + 1 && a != b
                    implies #[trigger] fields@[a].name@ != #[trigger] fields@[b].name@ by {
                if b == i as int {
                    assert(def.fields@[a].name@ != def.fields@[b].name@);
                } else if a == i as int {
                    assert(def.fields@[b].name@ != def.fields@[a].name@);
                }
            }
        }
        i = i + 1;
    }
    let p = Plan {
        name: def.name.clone(),
        decoder_name: def.name.clone().concat("_DECODER"),
        state_kind: def.state_kind,
        fields,
    };
    proof {
        reveal_strlit("_DECODER");
    }
    Ok(p)
}

/// Once the first `n` fields raise an error, every longer prefix raises it.
proof fn lemma_first_error_stays(schema: Seq<Plan>, def: RecordDef, n: int, m: int)
    requires
        0 <= n <= m,
    ensures
        first_error(schema, def, n) is Some ==> first_error(schema, def, m) == first_error(schema, def, n),
    decreases m - n,
{
    if n < m {
        lemma_first_error_stays(schema, def, n, m - 1);
    }
}

} // verus!
