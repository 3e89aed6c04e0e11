use vstd::prelude::*;

verus! {

/// A value that can be taken out exactly once.
pub enum Value<T> {
    Here(T),
    Moved,
}

impl<T> Value<T> {
    /// Takes the value out, leaving `Moved` behind.
    /// Only a `Here` value can be extracted.
    pub fn extract(&mut self) -> (val: T)
        requires
            *old(self) is Here,
        ensures
            *old(self) == Value::Here(val),
            *final(self) is Moved,
    {
        let mut moved = Value::Moved;
        std::mem::swap(&mut moved, self);
        match moved {
            Value::Here(val) => val,
            Value::Moved => vstd::pervasive::unreached(),
        }
    }

    /// Whether the value is still here.
    pub fn contains(&self) -> (here: bool)
        ensures
            here == (self is Here),
    {
        match self {
            Value::Here(_) => true,
            Value::Moved => false,
        }
    }
}

} // verus!
