use vstd::prelude::*;

verus! {

/// Starts a composition of single-argument functions.
pub fn pipe() -> (r: PipeMaker) {
    PipeMaker::new()
}

/// The start of a composition, before its first function.
pub struct PipeMaker {}

impl PipeMaker {
    pub fn new() -> (r: PipeMaker) {
        PipeMaker {}
    }

    /// A composition of the one function `wrapped_function`.
    pub fn to<T, U, F: Fn(T) -> U>(self, wrapped_function: F) -> (r: Pipe<T, U, F>)
        ensures
            r.wrapped_function == wrapped_function,
    {
        Pipe { wrapped_function, signature: core::marker::PhantomData }
    }
}

/// A composition of functions that takes a `T` and gives a `U`.
#[verifier::reject_recursive_types(T)]
#[verifier::reject_recursive_types(U)]
pub struct Pipe<T, U, F: Fn(T) -> U> {
    pub wrapped_function: F,
    pub signature: core::marker::PhantomData<(T, U)>,
}

impl<T, U, F: Fn(T) -> U> Pipe<T, U, F> {
    /// This composition followed by `input`: each call applies the functions
    /// so far and hands the result to `input`.
    pub fn to<V, G: Fn(U) -> V>(self, input: G) -> (r: Pipe<T, V, impl Fn(T) -> V>)
        requires
            forall|t: T| call_requires(self.wrapped_function, (t,)),
            forall|u: U| call_requires(input, (u,)),
        ensures
            forall|t: T| call_requires(r.wrapped_function, (t,)),
            forall|t: T, v: V|
                call_ensures(r.wrapped_function, (t,), v) ==> exists|u: U|
                    #[trigger] call_ensures(self.wrapped_function, (t,), u) && call_ensures(input, (u,), v),
    {
        let wrapped = self.wrapped_function;
        let ghost first = |t: T, u: U| call_ensures(wrapped, (t,), u);
        let ghost second = |u: U, v: V| call_ensures(input, (u,), v);
        let composed = move |arg: T| -> (v: V)
            ensures
                exists|u: U| #[trigger] first(arg, u) && second(u, v),
            {
                let u = wrapped(arg);
                let v = input(u);
                assert(first(arg, u) && second(u, v));
                v
            };
        Pipe { wrapped_function: composed, signature: core::marker::PhantomData }
    }

    /// Applies the composition to `arg`.
    pub fn call(self, arg: T) -> (r: U)
        requires
            call_requires(self.wrapped_function, (arg,)),
        ensures
            call_ensures(self.wrapped_function, (arg,), r),
    {
        (self.wrapped_function)(arg)
    }
}

} // verus!
