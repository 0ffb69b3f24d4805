use vstd::prelude::*;

verus! {

/// A JSON-shaped number. Finite values are kept in decimal form:
/// the number is `mant * 10^exp`, negated when `neg` is set.
/// Parsing a token such as `1.5` yields `mant == 15`, `exp == -1`.
#[derive(Clone, Copy, Debug, PartialEq, Eq, Structural)]
pub enum Number {
    Nan,
    Dec { neg: bool, mant: u64, exp: i16 },
}

/// A JSON value: the target of the parser and the domain of the serializer.
/// Objects keep their entries in insertion order; keys are unique.
#[derive(Debug, PartialEq)]
pub enum Value {
    Null,
    Bool(bool),
    Num(Number),
    Str(String),
    Arr(Vec<Value>),
    Obj(Vec<(String, Value)>),
}

/// Mathematical model of a number.
pub enum JNum {
    Nan,
    Dec { neg: bool, mant: u64, exp: int },
}

/// Mathematical model of a JSON value: strings as character sequences,
/// containers as sequences.
pub enum Jv {
    Null,
    Bool(bool),
    Num(JNum),
    Str(Seq<char>),
    Arr(Seq<Jv>),
    Obj(Seq<(Seq<char>, Jv)>),
}

impl Number {
    pub open spec fn view(self) -> JNum {
        match self {
            Number::Nan => JNum::Nan,
            Number::Dec { neg, mant, exp } => JNum::Dec { neg, mant, exp: exp as int },
        }
    }
}

impl Value {
    pub open spec fn view(self) -> Jv
        decreases self,
    {
        match self {
            Value::Null => Jv::Null,
            Value::Bool(b) => Jv::Bool(b),
            Value::Num(n) => Jv::Num(n.view()),
            Value::Str(s) => Jv::Str(s@),
            Value::Arr(items) => Jv::Arr(view_arr(items@)),
            Value::Obj(entries) => Jv::Obj(view_obj(entries@)),
        }
    }
}

pub open spec fn view_arr(items: Seq<Value>) -> Seq<Jv>
    decreases items,
{
    if items.len() == 0 {
        Seq::empty()
    } else {
        seq![items[0].view()] + view_arr(items.drop_first())
    }
}

pub open spec fn view_obj(entries: Seq<(String, Value)>) -> Seq<(Seq<char>, Jv)>
    decreases entries,
{
    if entries.len() == 0 {
        Seq::empty()
    } else {
        seq![(entries[0].0@, entries[0].1.view())] + view_obj(entries.drop_first())
    }
}

pub proof fn lemma_view_arr(items: Seq<Value>)
    ensures
        view_arr(items).len() == items.len(),
        forall|i: int| 0 <= i < items.len() ==> view_arr(items)[i] == items[i].view(),
    decreases items.len(),
{
    if items.len() > 0 {
        lemma_view_arr(items.drop_first());
    }
}

pub proof fn lemma_view_obj(entries: Seq<(String, Value)>)
    ensures
        view_obj(entries).len() == entries.len(),
        forall|i: int|
            0 <= i < entries.len() ==> view_obj(entries)[i] == (entries[i].0@, entries[i].1.view()),
    decreases entries.len(),
{
    if entries.len() > 0 {
        lemma_view_obj(entries.drop_first());
    }
}

} // verus!
