use vstd::prelude::*;
use vstd::std_specs::convert::IntoSpec;

verus! {

/// A cell that holds either a deferred description (`Thunk`) or a
/// materialised value (`Value`). Once it holds a value it never goes back.
pub enum Lazy<V, T> {
    Value(V),
    Thunk(Option<T>),
}

impl<V, T> Lazy<V, T> {
    /// The deferred payload is present whenever the cell is a thunk.
    pub open spec fn wf(&self) -> bool {
        match self {
            Lazy::Value(_) => true,
            Lazy::Thunk(t) => t is Some,
        }
    }

    pub open spec fn spec_is_thunk(&self) -> bool {
        self is Thunk
    }

    /// `r` is what promoting this cell with `f` may give: the held value,
    /// or a result of `f` on the description.
    pub open spec fn promotion_result<F: FnOnce(T) -> V>(self, f: F, r: V) -> bool {
        match self {
            Lazy::Value(v) => r == v,
            Lazy::Thunk(t) => f.ensures((t->Some_0,), r),
        }
    }

    pub fn new_value(x: V) -> (r: Self)
        ensures
            r == Lazy::<V, T>::Value(x),
    {
        Lazy::Value(x)
    }

    pub fn new_thunk(x: T) -> (r: Self)
        ensures
            r == Lazy::<V, T>::Thunk(Some(x)),
            r.wf(),
    {
        Lazy::Thunk(Some(x))
    }

    pub fn is_thunk(&self) -> (r: bool)
        ensures
            r == self.spec_is_thunk(),
    {
        match self {
            Lazy::Value(_) => false,
            Lazy::Thunk(_) => true,
        }
    }

    /// Promote the cell with `f` if it is still a thunk, and return its value.
    /// `f` runs at most once over the life of the cell: on a cell that already
    /// holds a value it is not called and that value is returned unchanged.
    pub fn value_with<F: FnOnce(T) -> V>(&mut self, f: F) -> (r: &mut V)
        requires
            old(self).wf(),
            (*old(self)) is Thunk ==> f.requires(((*old(self))->Thunk_0->Some_0,)),
        ensures
            old(self).promotion_result(f, *r),
            *final(self) == Lazy::<V, T>::Value(*final(r)),
    {
        if let Lazy::Thunk(t) = self {
            let thunk = t.take().unwrap();
            *self = Lazy::Value(f(thunk));
        }
        match self {
            Lazy::Value(v) => v,
            Lazy::Thunk(_) => { unreached() },
        }
    }

    /// Promote the cell by converting its description, if it is still a
    /// thunk, and return its value.
    pub fn value(&mut self) -> (r: &mut V) where T: Into<V>
        requires
            old(self).wf(),
        ensures
            (*old(self)) is Value ==> *r == (*old(self))->Value_0,
            (*old(self)) is Thunk && <T as IntoSpec<V>>::obeys_into_spec()
                ==> *r == (*old(self))->Thunk_0->Some_0.into_spec(),
            *final(self) == Lazy::<V, T>::Value(*final(r)),
    {
        if let Lazy::Thunk(t) = self {
            let thunk = t.take().unwrap();
            *self = Lazy::Value(thunk.into());
        }
        match self {
            Lazy::Value(v) => v,
            Lazy::Thunk(_) => { unreached() },
        }
    }

    /// The deferred description of a cell that has not been promoted.
    pub fn thunk(&mut self) -> (r: &mut T)
        requires
            old(self).wf(),
            (*old(self)) is Thunk,
        ensures
            *r == (*old(self))->Thunk_0->Some_0,
            *final(self) == Lazy::<V, T>::Thunk(Some(*final(r))),
    {
        match self {
            Lazy::Thunk(Some(t)) => t,
            _ => { unreached() },
        }
    }
}

/// Promoting twice runs the promotion function once: a second promotion,
/// with any function, gives back the value that the first one stored.
pub proof fn lemma_promotion_once<V, T, F: FnOnce(T) -> V, G: FnOnce(T) -> V>(
    cell: Lazy<V, T>,
    f: F,
    first: V,
    g: G,
    second: V,
)
    requires
        cell.promotion_result(f, first),
        Lazy::<V, T>::Value(first).promotion_result(g, second),
    ensures
        second == first,
{
}

} // verus!
