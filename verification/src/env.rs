//! The environment that array operations run in: stacks of values and functions, and the runtime
//! that executes functions and computes with numbers.
use crate::error::{ErrorView, UiuaError, Wanted};
use crate::function::{Dyadic, Function, Identity};
use crate::value::{result_view, views, Value, ValueView};
use std::sync::Arc;
use vstd::prelude::*;

verus! {

/// A stack of values and a stack of functions. The last element of each is on top.
#[verifier::reject_recursive_types(N)]
#[verifier::reject_recursive_types(C)]
#[verifier::reject_recursive_types(B)]
#[verifier::reject_recursive_types(F)]
pub struct Stacks<N, C, B, F> {
    pub values: Vec<Value<N, C, B>>,
    pub functions: Vec<Arc<Function<F>>>,
}

/// The stacks as a mathematical value.
#[verifier::ext_equal]
#[verifier::reject_recursive_types(F)]
pub struct StacksView<N, C, B, F> {
    pub values: Seq<ValueView<N, C, B>>,
    pub functions: Seq<Arc<Function<F>>>,
}

impl<N, C, B, F> View for Stacks<N, C, B, F> {
    type V = StacksView<N, C, B, F>;

    open spec fn view(&self) -> StacksView<N, C, B, F> {
        StacksView { values: views(self.values@), functions: self.functions@ }
    }
}

/// What executes functions and computes with numbers. Nothing is taken for granted of it: a
/// method may give something else each time it is called with the same arguments.
pub trait Runtime: Sized {
    /// A number.
    type Num: Copy;

    /// A complex number.
    type Complex: Copy;

    /// A boxed value.
    type Boxed: Clone;

    /// The body of a function.
    type Body;

    /// A rank in a rank list.
    type Rank;

    /// A failure of the runtime.
    type Error;

    /// Executes a function on the stacks. Gives the stacks as the function leaves them and, unless
    /// it fails, whether it broke out of the loop that it was called from.
    fn call_catch_break(
        &self,
        f: &Function<Self::Body>,
        stacks: Stacks<Self::Num, Self::Complex, Self::Boxed, Self::Body>,
    ) -> (Stacks<Self::Num, Self::Complex, Self::Boxed, Self::Body>, Result<bool, Self::Error>);

    /// Takes the rank list of the modifier with the given name off the stacks.
    fn rank_list(
        &self,
        name: &str,
        stacks: Stacks<Self::Num, Self::Complex, Self::Boxed, Self::Body>,
    ) -> (
        Stacks<Self::Num, Self::Complex, Self::Boxed, Self::Body>,
        Result<Vec<Self::Rank>, Self::Error>,
    );

    /// How many dimensions to descend into an array with the given rank for a declared rank.
    fn rank_to_depth(&self, declared: &Self::Rank, rank: usize) -> usize;

    /// The value that has the given values as its rows.
    fn from_row_values(&self, rows: Vec<Value<Self::Num, Self::Complex, Self::Boxed>>) -> Result<
        Value<Self::Num, Self::Complex, Self::Boxed>,
        Self::Error,
    >;

    /// The number that an identity stands for.
    fn num_identity(&self, identity: Identity) -> Self::Num;

    /// An operation on two numbers.
    fn num_num(&self, op: Dyadic, a: Self::Num, b: Self::Num) -> Self::Num;

    /// The complex number that an identity stands for.
    fn com_identity(&self, identity: Identity) -> Self::Complex;

    /// An operation on two complex numbers.
    fn com_x(&self, op: Dyadic, a: Self::Complex, b: Self::Complex) -> Self::Complex;

    /// A byte as a number.
    fn byte_to_num(&self, byte: u8) -> Self::Num;
}

/// A value of a runtime.
pub type ValueOf<R> = Value<<R as Runtime>::Num, <R as Runtime>::Complex, <R as Runtime>::Boxed>;

/// The view of a value of a runtime.
pub type ValueViewOf<R> = ValueView<
    <R as Runtime>::Num,
    <R as Runtime>::Complex,
    <R as Runtime>::Boxed,
>;

/// The stacks of a runtime.
pub type StacksOf<R> = Stacks<
    <R as Runtime>::Num,
    <R as Runtime>::Complex,
    <R as Runtime>::Boxed,
    <R as Runtime>::Body,
>;

/// The view of the stacks of a runtime.
pub type StacksViewOf<R> = StacksView<
    <R as Runtime>::Num,
    <R as Runtime>::Complex,
    <R as Runtime>::Boxed,
    <R as Runtime>::Body,
>;

/// A function of a runtime.
pub type FunctionOf<R> = Function<<R as Runtime>::Body>;

/// A failure in the environment of a runtime.
pub type ErrorOf<R> = UiuaError<<R as Runtime>::Error>;

/// The view of a failure in the environment of a runtime.
pub type ErrorViewOf<R> = ErrorView<<R as Runtime>::Error>;

/// What was asked of a runtime, other than to compute with numbers, and what came of it.
#[verifier::reject_recursive_types(R)]
pub enum Call<R: Runtime> {
    /// A function was executed.
    Execution {
        function: FunctionOf<R>,
        before: StacksViewOf<R>,
        after: StacksViewOf<R>,
        reply: Result<bool, R::Error>,
    },
    /// A rank list was taken off the stacks.
    RankList {
        name: Seq<char>,
        before: StacksViewOf<R>,
        after: StacksViewOf<R>,
        ranks: Result<Seq<R::Rank>, R::Error>,
    },
    /// Rows were put together.
    Making { rows: Seq<ValueViewOf<R>>, made: Result<ValueViewOf<R>, R::Error> },
}

/// Where an environment stands: what is on its stacks, the last element of each on top, and all the
/// calls of its runtime so far.
#[verifier::ext_equal]
#[verifier::reject_recursive_types(R)]
pub struct StateView<R: Runtime> {
    pub values: Seq<ValueViewOf<R>>,
    pub functions: Seq<Arc<FunctionOf<R>>>,
    pub calls: Seq<Call<R>>,
}

impl<R: Runtime> StateView<R> {
    /// What is on the stacks.
    pub open spec fn stacks(self) -> StacksViewOf<R> {
        StacksView { values: self.values, functions: self.functions }
    }

    /// The state after one more call, which left the stacks as they are.
    pub open spec fn called(self, call: Call<R>) -> Self {
        StateView { calls: self.calls.push(call), ..self }
    }

    /// The state with a value put on top.
    pub open spec fn push(self, value: ValueViewOf<R>) -> Self {
        StateView { values: self.values.push(value), ..self }
    }

    /// The state with values put on top one after the other.
    pub open spec fn push_all(self, values: Seq<ValueViewOf<R>>) -> Self {
        StateView { values: self.values + values, ..self }
    }

    /// The value on top.
    pub open spec fn top(self) -> ValueViewOf<R> {
        self.values.last()
    }

    /// The state with the value on top taken away.
    pub open spec fn pop(self) -> Self {
        StateView { values: self.values.drop_last(), ..self }
    }

    /// The state with only the `n` lowest values left, if there are more.
    pub open spec fn truncate(self, n: nat) -> Self {
        if n <= self.values.len() {
            StateView { values: self.values.take(n as int), ..self }
        } else {
            self
        }
    }

    /// The topmost `n` values, the one on top first.
    pub open spec fn topmost(self, n: nat) -> Seq<ValueViewOf<R>> {
        Seq::new(n, |i: int| self.values[self.values.len() - 1 - i])
    }

    /// The state with a function put on top.
    pub open spec fn push_function(self, f: Arc<FunctionOf<R>>) -> Self {
        StateView { functions: self.functions.push(f), ..self }
    }

    /// The state with the function on top taken away.
    pub open spec fn pop_function(self) -> Self {
        StateView { functions: self.functions.drop_last(), ..self }
    }
}

/// The call that executes `f` on the stacks `before`, leaves the stacks `after` and gives `reply`.
pub open spec fn execution<R: Runtime>(
    f: &FunctionOf<R>,
    before: StacksViewOf<R>,
    after: StacksViewOf<R>,
    reply: Result<bool, R::Error>,
) -> Call<R> {
    Call::Execution { function: *f, before, after, reply }
}

/// Whether executing `f` in the state `before` may lead to the state `after` and give `reply`. It
/// is one call.
pub open spec fn may_reply<R: Runtime>(
    rt: R,
    f: FunctionOf<R>,
    before: StateView<R>,
    after: StateView<R>,
    reply: Result<bool, R::Error>,
) -> bool {
    &&& after.calls == before.calls.push(execution(&f, before.stacks(), after.stacks(), reply))
    &&& exists|s: StacksOf<R>, t: StacksOf<R>|
        s@ == before.stacks() && t@ == after.stacks() && #[trigger] call_ensures(
            R::call_catch_break,
            (&rt, &f, s),
            (t, reply),
        )
}

/// The view of a list that may have failed to come about.
pub open spec fn list_view<T, E>(list: Result<Vec<T>, E>) -> Result<Seq<T>, E> {
    match list {
        Ok(l) => Ok(l@),
        Err(e) => Err(e),
    }
}

/// Whether taking the rank list called `name` off the stacks in the state `before` may lead to the
/// state `after` and give `reply`. It is one call.
pub open spec fn may_list_ranks<R: Runtime>(
    rt: R,
    name: Seq<char>,
    before: StateView<R>,
    after: StateView<R>,
    reply: Result<Seq<R::Rank>, R::Error>,
) -> bool {
    &&& after.calls == before.calls.push(
        Call::RankList { name, before: before.stacks(), after: after.stacks(), ranks: reply },
    )
    &&& exists|
        literal: &str,
        s: StacksOf<R>,
        t: StacksOf<R>,
        ranks: Result<Vec<R::Rank>, R::Error>,
    |
        literal@ == name && s@ == before.stacks() && t@ == after.stacks() && list_view(ranks)
            == reply && #[trigger] call_ensures(R::rank_list, (&rt, literal, s), (t, ranks))
}

/// Whether putting `rows` together may give `made`.
pub open spec fn may_make<R: Runtime>(
    rt: R,
    rows: Seq<ValueViewOf<R>>,
    made: Result<ValueViewOf<R>, R::Error>,
) -> bool {
    exists|list: Vec<ValueOf<R>>, value: Result<ValueOf<R>, R::Error>|
        views(list@) == rows && result_view(value) == made && #[trigger] call_ensures(
            R::from_row_values,
            (&rt, list),
            value,
        )
}

/// An outcome with the failure as a mathematical value.
pub open spec fn outcome<T, E>(r: Result<T, UiuaError<E>>) -> Result<T, ErrorView<E>> {
    match r {
        Ok(t) => Ok(t),
        Err(e) => Err(e@),
    }
}

/// A value as an outcome, with all of it as mathematical values.
pub open spec fn value_outcome<R: Runtime>(r: Result<ValueOf<R>, ErrorOf<R>>) -> Result<
    ValueViewOf<R>,
    ErrorViewOf<R>,
> {
    match r {
        Ok(value) => Ok(value@),
        Err(e) => Err(e@),
    }
}

/// Values as an outcome, with all of it as mathematical values.
pub open spec fn values_outcome<R: Runtime>(r: Result<Vec<ValueOf<R>>, ErrorOf<R>>) -> Result<
    Seq<ValueViewOf<R>>,
    ErrorViewOf<R>,
> {
    match r {
        Ok(values) => Ok(views(values@)),
        Err(e) => Err(e@),
    }
}

/// Where a loop that calls a function stands after a call: it stops with the stacks and a result,
/// or it goes on with the stacks and what it carries along.
pub enum Step<S, A, T> {
    Stop(S, T),
    Go(S, A),
}

/// The environment: the stacks, whether boxes are packed, the runtime, and the calls of the runtime
/// so far.
#[verifier::reject_recursive_types(R)]
pub struct Uiua<R: Runtime> {
    stacks: StacksOf<R>,
    pack_boxes: bool,
    runtime: R,
    calls: Ghost<Seq<Call<R>>>,
}

impl<R: Runtime> View for Uiua<R> {
    type V = StateView<R>;

    closed spec fn view(&self) -> StateView<R> {
        StateView {
            values: views(self.stacks.values@),
            functions: self.stacks.functions@,
            calls: self.calls@,
        }
    }
}

impl<R: Runtime> Uiua<R> {
    /// The runtime.
    pub closed spec fn runtime(self) -> R {
        self.runtime
    }

    /// Whether boxes are packed.
    pub closed spec fn spec_pack_boxes(&self) -> bool {
        self.pack_boxes
    }

    /// Whether two environments have the same runtime and deal with boxes in the same way.
    pub open spec fn same_setting(self, other: Self) -> bool {
        self.runtime() == other.runtime() && self.pack_boxes() == other.pack_boxes()
    }

    /// The environment with empty stacks.
    pub fn new(runtime: R, pack_boxes: bool) -> (r: Self)
        ensures
            r.runtime() == runtime,
            r.pack_boxes() == pack_boxes,
            r@ == (StateView::<R> {
                values: Seq::empty(),
                functions: Seq::empty(),
                calls: Seq::empty(),
            }),
    {
        Uiua {
            stacks: Stacks { values: Vec::new(), functions: Vec::new() },
            pack_boxes,
            runtime,
            calls: Ghost(Seq::empty()),
        }
    }

    /// Whether boxes are packed, which keeps joining rows from being done in one step.
    #[verifier::when_used_as_spec(spec_pack_boxes)]
    pub fn pack_boxes(&self) -> (r: bool)
        ensures
            r == self.pack_boxes(),
    {
        self.pack_boxes
    }

    /// The stacks.
    pub fn stacks(&self) -> (r: &StacksOf<R>)
        ensures
            r@ == self@.stacks(),
    {
        &self.stacks
    }

    /// The number of values on the stack.
    pub fn stack_size(&self) -> (n: usize)
        ensures
            n == self@.values.len(),
    {
        self.stacks.values.len()
    }

    /// Puts a value on top of the stack.
    pub fn push(&mut self, value: ValueOf<R>)
        ensures
            final(self)@ == old(self)@.push(value@),
            final(self).same_setting(*old(self)),
    {
        self.stacks.values.push(value);
    }

    /// Puts a function on top of the function stack.
    pub fn push_function(&mut self, f: Arc<FunctionOf<R>>)
        ensures
            final(self)@ == old(self)@.push_function(f),
            final(self).same_setting(*old(self)),
    {
        self.stacks.functions.push(f);
    }

    /// Takes the value on top of the stack.
    pub fn pop(&mut self, wanted: Wanted) -> (r: Result<ValueOf<R>, ErrorOf<R>>)
        ensures
            final(self).same_setting(*old(self)),
            match r {
                Ok(value) => {
                    &&& old(self)@.values.len() > 0
                    &&& value@ == old(self)@.top()
                    &&& final(self)@ == old(self)@.pop()
                },
                Err(e) => {
                    &&& old(self)@.values.len() == 0
                    &&& e@ == ErrorView::<R::Error>::EmptyStack(wanted)
                    &&& final(self)@ == old(self)@
                },
            },
    {
        match self.stacks.values.pop() {
            Some(value) => {
                assert(self@ == old(self)@.pop());
                Ok(value)
            },
            None => Err(UiuaError::EmptyStack(wanted)),
        }
    }

    /// Takes the function on top of the function stack.
    pub fn pop_function(&mut self) -> (r: Result<Arc<FunctionOf<R>>, ErrorOf<R>>)
        ensures
            final(self).same_setting(*old(self)),
            match r {
                Ok(f) => {
                    &&& old(self)@.functions.len() > 0
                    &&& f == old(self)@.functions.last()
                    &&& final(self)@ == old(self)@.pop_function()
                },
                Err(e) => {
                    &&& old(self)@.functions.len() == 0
                    &&& e@ == ErrorView::<R::Error>::NoFunction
                    &&& final(self)@ == old(self)@
                },
            },
    {
        match self.stacks.functions.pop() {
            Some(f) => {
                assert(self@ == old(self)@.pop_function());
                Ok(f)
            },
            None => Err(UiuaError::NoFunction),
        }
    }

    /// Leaves only the `n` lowest values on the stack, if there are more.
    pub fn truncate_stack(&mut self, n: usize)
        ensures
            final(self)@ == old(self)@.truncate(n as nat),
            final(self).same_setting(*old(self)),
    {
        self.stacks.values.truncate(n);
        assert(self@ == old(self)@.truncate(n as nat));
    }

    /// Executes a function. Tells whether it broke out of the loop that it was called from.
    pub fn call_catch_break(&mut self, f: &Arc<FunctionOf<R>>) -> (reply: Result<bool, R::Error>)
        ensures
            final(self).same_setting(*old(self)),
            may_reply(old(self).runtime(), **f, old(self)@, final(self)@, reply),
    {
        let ghost before = self@.stacks();
        let mut stacks = Stacks { values: Vec::new(), functions: Vec::new() };
        std::mem::swap(&mut stacks, &mut self.stacks);
        let (after, reply) = self.runtime.call_catch_break(f, stacks);
        self.stacks = after;
        self.calls = Ghost(self.calls@.push(execution(f, before, self@.stacks(), reply)));
        reply
    }

    /// Takes the rank list of the modifier with the given name off the stacks.
    pub fn rank_list(&mut self, name: &str) -> (reply: Result<Vec<R::Rank>, R::Error>)
        ensures
            final(self).same_setting(*old(self)),
            may_list_ranks(
                old(self).runtime(),
                name@,
                old(self)@,
                final(self)@,
                list_view(reply),
            ),
    {
        let ghost before = self@.stacks();
        let mut stacks = Stacks { values: Vec::new(), functions: Vec::new() };
        std::mem::swap(&mut stacks, &mut self.stacks);
        let (after, reply) = self.runtime.rank_list(name, stacks);
        self.stacks = after;
        self.calls = Ghost(
            self.calls@.push(
                Call::RankList {
                    name: name@,
                    before,
                    after: self@.stacks(),
                    ranks: list_view(reply),
                },
            ),
        );
        reply
    }

    /// Puts rows together.
    pub fn from_row_values(&mut self, rows: Vec<ValueOf<R>>) -> (made: Result<
        ValueOf<R>,
        R::Error,
    >)
        ensures
            final(self).same_setting(*old(self)),
            may_make(old(self).runtime(), views(rows@), result_view(made)),
            final(self)@ == old(self)@.called(
                Call::Making { rows: views(rows@), made: result_view(made) },
            ),
    {
        let ghost listed = views(rows@);
        let made = self.runtime.from_row_values(rows);
        self.calls = Ghost(
            self.calls@.push(Call::Making { rows: listed, made: result_view(made) }),
        );
        made
    }

    /// How many dimensions to descend into an array with the given rank for a declared rank.
    pub fn rank_to_depth(&self, declared: &R::Rank, rank: usize) -> (depth: usize)
        ensures
            call_ensures(R::rank_to_depth, (&self.runtime(), declared, rank), depth),
    {
        self.runtime.rank_to_depth(declared, rank)
    }

    /// The number that an identity stands for.
    pub fn num_identity(&self, identity: Identity) -> (number: R::Num)
        ensures
            call_ensures(R::num_identity, (&self.runtime(), identity), number),
    {
        self.runtime.num_identity(identity)
    }

    /// An operation on two numbers.
    pub fn num_num(&self, op: Dyadic, a: R::Num, b: R::Num) -> (c: R::Num)
        ensures
            call_ensures(R::num_num, (&self.runtime(), op, a, b), c),
    {
        self.runtime.num_num(op, a, b)
    }

    /// The complex number that an identity stands for.
    pub fn com_identity(&self, identity: Identity) -> (number: R::Complex)
        ensures
            call_ensures(R::com_identity, (&self.runtime(), identity), number),
    {
        self.runtime.com_identity(identity)
    }

    /// An operation on two complex numbers.
    pub fn com_x(&self, op: Dyadic, a: R::Complex, b: R::Complex) -> (c: R::Complex)
        ensures
            call_ensures(R::com_x, (&self.runtime(), op, a, b), c),
    {
        self.runtime.com_x(op, a, b)
    }

    /// A byte as a number.
    pub fn byte_to_num(&self, byte: u8) -> (number: R::Num)
        ensures
            call_ensures(R::byte_to_num, (&self.runtime(), byte), number),
    {
        self.runtime.byte_to_num(byte)
    }
}

} // verus!
