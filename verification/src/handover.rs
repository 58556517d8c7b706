//! Calls of a function that someone else has handed in. Each call is made once, when its turn has
//! come.
use vstd::prelude::*;

verus! {

/// Whether the call of `f` with `args` is left to this module, as call number `index`. It is known
/// to be so here and nowhere else. Where `f` is known to accept only calls that are left to this
/// module, no other module can call it: it can but hand it over to `Calls3` or `Calls1`, which call
/// it with what is planned for each number, and once for each number.
pub closed spec fn left_as_call<F, Args>(f: F, index: int, args: Args) -> bool {
    true
}

/// A function of three arguments, the calls of it that are planned, and those that have been made.
///
/// Nothing is known here of the arguments, which can be neither copied nor made up: what `call` is
/// given it can hand on once.
#[verifier::reject_recursive_types(A)]
#[verifier::reject_recursive_types(B)]
#[verifier::reject_recursive_types(C)]
pub struct Calls3<A, B, C, F: FnMut(A, B, C)> {
    f: F,
    plan: Ghost<spec_fn(int, A, B, C) -> bool>,
    made: Ghost<Seq<(A, B, C)>>,
}

impl<A, B, C, F: FnMut(A, B, C)> Calls3<A, B, C, F> {
    /// The function.
    pub closed spec fn callee(&self) -> F {
        self.f
    }

    /// Whether call number `i`, counted from zero, may have the arguments `a`, `b` and `c`.
    pub closed spec fn plan(&self) -> spec_fn(int, A, B, C) -> bool {
        self.plan@
    }

    /// The arguments of all calls, in the order in which they were made.
    pub closed spec fn made(&self) -> Seq<(A, B, C)> {
        self.made@
    }

    /// The function accepts what is planned.
    pub closed spec fn wf(&self) -> bool {
        forall|i: int, a: A, b: B, c: C|
            #![trigger (self.plan@)(i, a, b, c)]
            (self.plan@)(i, a, b, c) ==> call_requires(self.f, (a, b, c))
    }

    /// No calls yet.
    pub fn new(f: F, Ghost(plan): Ghost<spec_fn(int, A, B, C) -> bool>) -> (calls: Self)
        requires
            forall|i: int, a: A, b: B, c: C|
                #![trigger plan(i, a, b, c)]
                plan(i, a, b, c) && left_as_call(f, i, (a, b, c)) ==> call_requires(f, (a, b, c)),
        ensures
            calls.wf(),
            calls.callee() == f,
            calls.plan() == plan,
            calls.made() == Seq::<(A, B, C)>::empty(),
    {
        Calls3 { f, plan: Ghost(plan), made: Ghost(Seq::empty()) }
    }

    /// Makes the next call.
    pub fn call(self, a: A, b: B, c: C) -> (calls: Self)
        requires
            self.wf(),
            self.plan()(self.made().len() as int, a, b, c),
        ensures
            calls.wf(),
            calls.callee() == self.callee(),
            calls.plan() == self.plan(),
            calls.made() == self.made().push((a, b, c)),
            call_ensures(self.callee(), (a, b, c), ()),
    {
        let ghost args = (a, b, c);
        let mut f: F = self.f;
        f(a, b, c);
        Calls3 { f, plan: self.plan, made: Ghost(self.made@.push(args)) }
    }
}

/// A function of one argument, the calls of it that are planned, and those that have been made.
///
/// Nothing is known here of the argument, which can be neither copied nor made up: what `call` is
/// given it can hand on once.
#[verifier::reject_recursive_types(A)]
pub struct Calls1<A, F: FnMut(A)> {
    f: F,
    plan: Ghost<spec_fn(int, A) -> bool>,
    made: Ghost<Seq<A>>,
}

impl<A, F: FnMut(A)> Calls1<A, F> {
    /// The function.
    pub closed spec fn callee(&self) -> F {
        self.f
    }

    /// Whether call number `i`, counted from zero, may have the argument `a`.
    pub closed spec fn plan(&self) -> spec_fn(int, A) -> bool {
        self.plan@
    }

    /// The arguments of all calls, in the order in which they were made.
    pub closed spec fn made(&self) -> Seq<A> {
        self.made@
    }

    /// The function accepts what is planned.
    pub closed spec fn wf(&self) -> bool {
        forall|i: int, a: A|
            #![trigger (self.plan@)(i, a)]
            (self.plan@)(i, a) ==> call_requires(self.f, (a,))
    }

    /// No calls yet.
    pub fn new(f: F, Ghost(plan): Ghost<spec_fn(int, A) -> bool>) -> (calls: Self)
        requires
            forall|i: int, a: A|
                #![trigger plan(i, a)]
                plan(i, a) && left_as_call(f, i, (a,)) ==> call_requires(f, (a,)),
        ensures
            calls.wf(),
            calls.callee() == f,
            calls.plan() == plan,
            calls.made() == Seq::<A>::empty(),
    {
        Calls1 { f, plan: Ghost(plan), made: Ghost(Seq::empty()) }
    }

    /// Makes the next call.
    pub fn call(self, a: A) -> (calls: Self)
        requires
            self.wf(),
            self.plan()(self.made().len() as int, a),
        ensures
            calls.wf(),
            calls.callee() == self.callee(),
            calls.plan() == self.plan(),
            calls.made() == self.made().push(a),
            call_ensures(self.callee(), (a,), ()),
    {
        let ghost arg = a;
        let mut f: F = self.f;
        f(a);
        Calls1 { f, plan: self.plan, made: Ghost(self.made@.push(arg)) }
    }
}

} // verus!
