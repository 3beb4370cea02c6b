use vstd::prelude::*;

verus! {

broadcast use vstd::std_specs::vec::group_vec_axioms, vstd::seq::group_seq_axioms;

/// A wire value as the self-describing format carries it.
#[derive(Debug)]
pub enum Value {
    Null,
    Boolean(bool),
    Int(i32),
    Long(i64),
    Str(String),
    Record(Vec<WireField>),
    /// A value of a kind that no built-in decoder reads.
    Other,
}

/// One named field of a wire record, in the order the wire holds it.
#[derive(Debug)]
pub struct WireField {
    pub name: String,
    pub value: Value,
}

/// A decoded value of a field's declared type.
#[derive(Debug)]
pub enum Decoded {
    Boolean(bool),
    Int(i32),
    Long(i64),
    Text(String),
    /// A nested record: its field values in declaration order.
    Record(Vec<Decoded>),
}

/// The content of a decoded value, as contracts speak of it.
pub enum DecodedView {
    Boolean(bool),
    Int(i32),
    Long(i64),
    Text(Seq<char>),
    Record(Seq<DecodedView>),
}

impl View for Decoded {
    type V = DecodedView;

    open spec fn view(&self) -> DecodedView
        decreases self,
    {
        match self {
            Decoded::Boolean(b) => DecodedView::Boolean(*b),
            Decoded::Int(i) => DecodedView::Int(*i),
            Decoded::Long(l) => DecodedView::Long(*l),
            Decoded::Text(s) => DecodedView::Text(s@),
            Decoded::Record(vs) => DecodedView::Record(views_of(vs@)),
        }
    }
}

/// The views of a sequence of decoded values, in order.
pub open spec fn views_of(vs: Seq<Decoded>) -> Seq<DecodedView>
    decreases vs,
{
    if vs.len() == 0 {
        Seq::empty()
    } else {
        views_of(vs.drop_last()).push(vs.last().view())
    }
}

/// `views_of` keeps the length and views each element in place.
pub(crate) proof fn lemma_views_of(vs: Seq<Decoded>)
    ensures
        views_of(vs).len() == vs.len(),
        forall|j: int| 0 <= j < vs.len() ==> #[trigger] views_of(vs)[j] == vs[j]@,
    decreases vs.len(),
{
    if vs.len() > 0 {
        lemma_views_of(vs.drop_last());
        assert(views_of(vs) == views_of(vs.drop_last()).push(vs.last().view()));
    } else {
        assert(views_of(vs) == Seq::<DecodedView>::empty());
    }
}

/// A decodable type: what the recursive decode protocol hands out a decoder for.
#[derive(Clone, Copy, Debug, PartialEq, Eq, Structural)]
pub enum TypeRef {
    Boolean,
    Int,
    Long,
    Text,
    /// A long that may not exceed the bound that its decoder state carries.
    AtMost,
    /// The record type whose plan stands at this index of the schema.
    Record(usize),
}

/// The type of a decoder's auxiliary state.
#[derive(Clone, Copy, Debug, PartialEq, Eq, Structural)]
pub enum StateKind {
    Unit,
    Int,
}

/// An auxiliary state value.
#[derive(Clone, Copy, Debug, PartialEq, Eq, Structural)]
pub enum State {
    Unit,
    Int(i64),
}

/// How a field derives the state for its own decoder from the record's state.
#[derive(Clone, Copy, Debug, PartialEq, Eq, Structural)]
pub enum StateExpr {
    /// The empty state.
    Unit,
    /// The record decoder's own state, unchanged.
    Inherit,
    /// A fixed integer state.
    Literal(i64),
}

/// Why a plan could not be built from a record declaration.
#[derive(Debug)]
pub enum BuildError {
    /// The field at this position has an empty name.
    UnnamedField(usize),
    /// Two fields share this name.
    DuplicateField(String),
    /// This field names a record type that the schema does not hold.
    UnknownType(String),
    /// This field hands its decoder a state of the wrong type.
    StateMismatch(String),
}

/// Why a record could not be decoded.
#[derive(Debug)]
pub enum DecodeError {
    /// The wire record holds this field twice.
    DuplicateField(String),
    /// The wire record lacks this field.
    MissingField(String),
    /// A wire value does not have the shape that its decoder reads.
    Mismatch,
    /// A long does not fit in an int.
    OutOfRange,
    /// A value exceeds the bound of its decoder's state.
    AboveLimit,
    /// A decoder names a record type that the schema does not hold.
    UnknownType,
}

/// The state that `e` yields when the record decoder's state is `parent`.
pub open spec fn eval_state(e: StateExpr, parent: State) -> State {
    match e {
        StateExpr::Unit => State::Unit,
        StateExpr::Inherit => parent,
        StateExpr::Literal(v) => State::Int(v),
    }
}

impl StateExpr {
    pub fn eval(&self, parent: State) -> (r: State)
        ensures
            r == eval_state(*self, parent),
    {
        match self {
            StateExpr::Unit => State::Unit,
            StateExpr::Inherit => parent,
            StateExpr::Literal(v) => State::Int(*v),
        }
    }

    /// The type of the state this expression yields under a record state of
    /// type `parent`.
    pub open spec fn spec_kind(&self, parent: StateKind) -> StateKind {
        match self {
            StateExpr::Unit => StateKind::Unit,
            StateExpr::Inherit => parent,
            StateExpr::Literal(_) => StateKind::Int,
        }
    }

    pub fn kind(&self, parent: StateKind) -> (r: StateKind)
        ensures
            r == self.spec_kind(parent),
    {
        match self {
            StateExpr::Unit => StateKind::Unit,
            StateExpr::Inherit => parent,
            StateExpr::Literal(_) => StateKind::Int,
        }
    }
}

} // verus!
