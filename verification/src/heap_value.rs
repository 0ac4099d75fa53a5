//! The values that live on the interpreter's heap.

use vstd::prelude::*;
use crate::ir_let::let_expr::TargetAddress;
use crate::syntax::{Name, views};

verus! {

#[derive(Debug, Clone, Copy, PartialEq, Eq, Hash)]
pub struct HeapAddress(pub u32);

/// A function value: the lifted function it runs and the values it captured.
/// The environment maps each captured name to its value; it is kept as a
/// list in the order of the function's captured names, and holds no name
/// twice where the function captures none twice.
#[derive(Debug, PartialEq, Eq)]
pub struct Closure {
    pub name: String,
    pub arg_names: Vec<String>,
    pub environment: Vec<(String, HeapAddress)>,
    pub body: TargetAddress,
}

pub struct ClosureView {
    pub name: Name,
    pub arg_names: Seq<Name>,
    pub environment: Seq<(Name, HeapAddress)>,
    pub body: TargetAddress,
}

impl ClosureView {
    /// Whether the environment holds no name twice: it is a map from the
    /// captured names to their values, kept in the order of the names.
    pub open spec fn environment_distinct(self) -> bool {
        forall|i: int, k: int|
            0 <= i < k < self.environment.len() ==> (#[trigger] self.environment[i]).0
                != (#[trigger] self.environment[k]).0
    }
}

/// The captured names with their values, as the contracts see them.
pub open spec fn environment_view(environment: Seq<(String, HeapAddress)>) -> Seq<(Name, HeapAddress)> {
    Seq::new(environment.len(), |i: int| (environment[i].0@, environment[i].1))
}

impl View for Closure {
    type V = ClosureView;

    open spec fn view(&self) -> ClosureView {
        ClosureView {
            name: self.name@,
            arg_names: views(self.arg_names@),
            environment: environment_view(self.environment@),
            body: self.body,
        }
    }
}

#[derive(Debug, PartialEq, Eq)]
pub struct Tuple {
    pub field_values: Vec<HeapAddress>,
}

#[derive(Debug, PartialEq, Eq)]
pub enum HeapValue {
    Int(i32),
    Bool(bool),
    Tuple(Tuple),
    Closure(Closure),
}

pub enum HeapValueView {
    Int(i32),
    Bool(bool),
    Tuple(Seq<HeapAddress>),
    Closure(ClosureView),
}

impl HeapValueView {
    /// The addresses that the value holds a reference to, in the order in
    /// which they are released when the value is destroyed.
    pub open spec fn references(self) -> Seq<HeapAddress> {
        match self {
            HeapValueView::Int(_) => Seq::empty(),
            HeapValueView::Bool(_) => Seq::empty(),
            HeapValueView::Tuple(fields) => fields,
            HeapValueView::Closure(closure) => Seq::new(
                closure.environment.len(),
                |i: int| closure.environment[i].1,
            ),
        }
    }
}

impl View for HeapValue {
    type V = HeapValueView;

    open spec fn view(&self) -> HeapValueView {
        match self {
            HeapValue::Int(value) => HeapValueView::Int(*value),
            HeapValue::Bool(value) => HeapValueView::Bool(*value),
            HeapValue::Tuple(tuple) => HeapValueView::Tuple(tuple.field_values@),
            HeapValue::Closure(closure) => HeapValueView::Closure(closure@),
        }
    }
}

/// A copy of a list of names.
pub fn clone_names(names: &Vec<String>) -> (copy: Vec<String>)
    ensures
        views(copy@) == views(names@),
{
    let mut copy: Vec<String> = Vec::new();
    let mut i: usize = 0;
    while i < names.len()
        invariant
            i <= names.len(),
            copy.len() == i,
            forall|k: int| 0 <= k < i ==> copy[k]@ == names[k]@,
        decreases names.len() - i,
    {
        copy.push(names[i].clone());
        i += 1;
    }
    assert(views(copy@) =~= views(names@));
    copy
}

impl Clone for Closure {
    fn clone(&self) -> (copy: Self)
        ensures
            copy@ == self@,
    {
        let mut environment: Vec<(String, HeapAddress)> = Vec::new();
        let mut i: usize = 0;
        while i < self.environment.len()
            invariant
                i <= self.environment.len(),
                environment.len() == i,
                forall|k: int| 0 <= k < i ==> environment[k].0@ == self.environment[k].0@
                    && environment[k].1 == self.environment[k].1,
            decreases self.environment.len() - i,
        {
            environment.push((self.environment[i].0.clone(), self.environment[i].1));
            i += 1;
        }
        assert(environment_view(environment@) =~= environment_view(self.environment@));
        Closure {
            name: self.name.clone(),
            arg_names: clone_names(&self.arg_names),
            environment,
            body: self.body,
        }
    }
}

impl Clone for Tuple {
    fn clone(&self) -> (copy: Self)
        ensures
            copy.field_values@ == self.field_values@,
    {
        let mut field_values: Vec<HeapAddress> = Vec::new();
        let mut i: usize = 0;
        while i < self.field_values.len()
            invariant
                i <= self.field_values.len(),
                field_values@ == self.field_values@.subrange(0, i as int),
            decreases self.field_values.len() - i,
        {
            field_values.push(self.field_values[i]);
            assert(self.field_values@.subrange(0, i as int).push(self.field_values@[i as int])
                =~= self.field_values@.subrange(0, i + 1));
            i += 1;
        }
        assert(self.field_values@.subrange(0, i as int) =~= self.field_values@);
        Tuple { field_values }
    }
}

impl Clone for HeapValue {
    fn clone(&self) -> (copy: Self)
        ensures
            copy@ == self@,
    {
        match self {
            HeapValue::Int(value) => HeapValue::Int(*value),
            HeapValue::Bool(value) => HeapValue::Bool(*value),
            HeapValue::Tuple(tuple) => HeapValue::Tuple(tuple.clone()),
            HeapValue::Closure(closure) => HeapValue::Closure(closure.clone()),
        }
    }
}

impl HeapValue {
    pub fn check_closure(&self) -> (closure: &Closure)
        requires
            self is Closure,
        ensures
            *closure == self->Closure_0,
    {
        match self {
            HeapValue::Closure(closure) => closure,
            _ => unreached(),
        }
    }

    pub fn check_int(&self) -> (value: i32)
        requires
            self is Int,
        ensures
            value == self->Int_0,
    {
        match self {
            HeapValue::Int(value) => *value,
            _ => unreached(),
        }
    }

    pub fn check_bool(&self) -> (value: bool)
        requires
            self is Bool,
        ensures
            value == self->Bool_0,
    {
        match self {
            HeapValue::Bool(value) => *value,
            _ => unreached(),
        }
    }

    pub fn check_tuple(&self) -> (tuple: &Tuple)
        requires
            self is Tuple,
        ensures
            *tuple == self->Tuple_0,
    {
        match self {
            HeapValue::Tuple(tuple) => tuple,
            _ => unreached(),
        }
    }

    pub fn check_tuple_mut(&mut self) -> (tuple: &mut Tuple)
        requires
            *old(self) is Tuple,
        ensures
            *tuple == old(self)->Tuple_0,
            *final(self) == HeapValue::Tuple(*final(tuple)),
    {
        match self {
            HeapValue::Tuple(tuple) => tuple,
            _ => unreached(),
        }
    }

    /// The addresses that the value holds a reference to.
    pub fn held_addresses(&self) -> (addresses: Vec<HeapAddress>)
        ensures
            addresses@ == self@.references(),
    {
        match self {
            HeapValue::Int(_) => Vec::new(),
            HeapValue::Bool(_) => Vec::new(),
            HeapValue::Tuple(tuple) => tuple.clone().field_values,
            HeapValue::Closure(closure) => {
                let mut addresses: Vec<HeapAddress> = Vec::new();
                let mut i: usize = 0;
                while i < closure.environment.len()
                    invariant
                        i <= closure.environment.len(),
                        addresses.len() == i,
                        forall|k: int| 0 <= k < i ==> addresses[k] == closure.environment[k].1,
                    decreases closure.environment.len() - i,
                {
                    addresses.push(closure.environment[i].1);
                    i += 1;
                }
                assert(addresses@ =~= self@.references());
                addresses
            },
        }
    }
}

#[derive(Debug)]
pub struct RefCountedHeapValue {
    pub refcount: u32,
    pub heap_value: HeapValue,
}

/// A heap cell as the contracts see it.
pub struct CellView {
    pub refcount: u32,
    pub value: HeapValueView,
}

impl View for RefCountedHeapValue {
    type V = CellView;

    open spec fn view(&self) -> CellView {
        CellView { refcount: self.refcount, value: self.heap_value@ }
    }
}

} // verus!
