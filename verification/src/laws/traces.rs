//! What reducing, scanning and folding ask of a runtime, call by call, and how their outcome comes
//! of the last call.
use crate::env::{
    may_make, may_reply, Call, ErrorViewOf, FunctionOf, Runtime, StacksOf, StacksView,
    StacksViewOf, StateView, Step, ValueOf, ValueViewOf,
};
use crate::error::{ErrorView, Wanted};
use crate::laws::calls::{first_accumulated, first_scanned};
use crate::reduce::{accumulated, accumulates, breaks_off, collects, feeds, placed};
use crate::scan::{scanned_on, scans_rows};
use crate::value::{result_view, views};
use std::sync::Arc;
use vstd::prelude::*;

verus! {

/// Whether `stacks` hold what `content` says, element by element.
pub open spec fn hold<R: Runtime>(stacks: StacksOf<R>, content: StacksViewOf<R>) -> bool {
    &&& stacks.values@.len() == content.values.len()
    &&& forall|i: int|
        0 <= i < content.values.len() ==> (#[trigger] stacks.values@[i])@ == content.values[i]
    &&& stacks.functions@ == content.functions
}

/// Whether a call executed `f`, and the runtime may have replied to it as it says.
pub open spec fn executed<R: Runtime>(rt: R, f: FunctionOf<R>, call: Call<R>) -> bool {
    &&& call is Execution
    &&& call->function == f
    &&& exists|s: StacksOf<R>, t: StacksOf<R>|
        hold::<R>(s, call->Execution_before) && hold::<R>(t, call->Execution_after)
            && #[trigger] call_ensures(R::call_catch_break, (&rt, &f, s), (t, call->reply))
}

/// Whether a call put rows together, and the runtime may have made of them what it says.
pub open spec fn put_together<R: Runtime>(rt: R, call: Call<R>) -> bool {
    &&& call is Making
    &&& exists|list: Vec<ValueOf<R>>, value: Result<ValueOf<R>, R::Error>|
        {
            &&& #[trigger] call_ensures(R::from_row_values, (&rt, list), value)
            &&& list@.len() == call->rows.len()
            &&& forall|i: int|
                0 <= i < call->rows.len() ==> (#[trigger] list@[i])@ == call->rows[i]
            &&& match (value, call->made) {
                (Ok(v), Ok(w)) => v@ == w,
                (Err(e), Err(g)) => e == g,
                _ => false,
            }
        }
}

/// Whether the calls that `made` lists are those that lie between the states `s` and `end`.
pub open spec fn made_between<R: Runtime>(
    s: StateView<R>,
    end: StateView<R>,
    made: Seq<Call<R>>,
) -> bool {
    end.calls == s.calls + made
}

/// What is on the stack of values before the call at position `i` takes its arguments: what was
/// there at the start, or what the call before left below the value it gave.
pub open spec fn below<R: Runtime>(s: StateView<R>, made: Seq<Call<R>>, i: int) -> Seq<
    ValueViewOf<R>,
> {
    if i == 0 {
        s.values
    } else {
        made[i - 1]->Execution_after.values.drop_last()
    }
}

/// The functions that the call at position `i` finds on the stack of functions: those that were
/// there at the start, or those that the call before left.
pub open spec fn functions_at<R: Runtime>(s: StateView<R>, made: Seq<Call<R>>, i: int) -> Seq<
    Arc<FunctionOf<R>>,
> {
    if i == 0 {
        s.functions
    } else {
        made[i - 1]->Execution_after.functions
    }
}

/// What the call at position `i` is given on top: the first row, or what the call before gave.
pub open spec fn carried_to<R: Runtime>(
    first: ValueViewOf<R>,
    made: Seq<Call<R>>,
    i: int,
) -> ValueViewOf<R> {
    if i == 0 {
        first
    } else {
        made[i - 1]->Execution_after.values.last()
    }
}

/// Whether the first `n` calls that `made` lists execute `f`, the one at position `i` on the row at
/// position `i + 1` of `rows` with what is carried along on top, and none of them but the last
/// fails, breaks or leaves no value.
pub open spec fn walks<R: Runtime>(
    rt: R,
    f: FunctionOf<R>,
    rows: Seq<ValueViewOf<R>>,
    s: StateView<R>,
    made: Seq<Call<R>>,
    n: int,
) -> bool {
    &&& 0 <= n <= made.len()
    &&& n < rows.len()
    &&& forall|i: int|
        0 <= i < n ==> executed(rt, f, #[trigger] made[i]) && made[i]->Execution_before == (
        StacksView {
            values: below(s, made, i).push(rows[i + 1]).push(carried_to(rows[0], made, i)),
            functions: functions_at(s, made, i),
        })
    &&& forall|i: int|
        0 <= i < n - 1 ==> (#[trigger] made[i])->reply == Ok::<bool, R::Error>(false)
            && made[i]->Execution_after.values.len() > 0
}

/// Whether the last of the first `n` calls lets what called it go on or end as it should: that
/// there are no more rows, or that the call broke.
pub open spec fn walked_through<R: Runtime>(
    rows: Seq<ValueViewOf<R>>,
    made: Seq<Call<R>>,
    n: int,
) -> bool {
    if n == 0 {
        rows.len() == 1
    } else {
        &&& made[n - 1]->reply is Ok
        &&& made[n - 1]->Execution_after.values.len() > 0
        &&& made[n - 1]->reply == Ok::<bool, R::Error>(true) || n == rows.len() - 1
    }
}

/// Whether the last of `made` failed, or left no value, and this is what comes of it.
pub open spec fn failed_at_last<R: Runtime>(
    made: Seq<Call<R>>,
    wanted: Wanted,
    end: StateView<R>,
    result: Result<(), ErrorViewOf<R>>,
) -> bool {
    &&& made.len() > 0
    &&& made.last() is Execution
    &&& end.values == made.last()->Execution_after.values
    &&& end.functions == made.last()->Execution_after.functions
    &&& match made.last()->reply {
        Err(e) => result == Err::<(), _>(ErrorView::<R::Error>::Runtime(e)),
        Ok(_) => end.values.len() == 0 && result == Err::<(), _>(
            ErrorView::<R::Error>::EmptyStack(wanted),
        ),
    }
}

/// Whether reducing `rows` by calling a function of two values went as it should between the states
/// `s` and `end`: the first row is where it starts, the function is called on each further row
/// until it breaks, and the value that the last call gave, or the only row, is on top.
pub open spec fn reduces_along<R: Runtime>(
    rt: R,
    f: FunctionOf<R>,
    rows: Seq<ValueViewOf<R>>,
    s: StateView<R>,
    end: StateView<R>,
    result: Result<(), ErrorViewOf<R>>,
    made: Seq<Call<R>>,
) -> bool {
    let n = made.len() as int;
    &&& made_between(s, end, made)
    &&& walks(rt, f, rows, s, made, n)
    &&& if walked_through(rows, made, n) {
        &&& result == Ok::<(), ErrorViewOf<R>>(())
        &&& end.values == below(s, made, n).push(carried_to(rows[0], made, n))
        &&& end.functions == functions_at(s, made, n)
    } else {
        failed_at_last(made, Wanted::ReducedResult, end, result)
    }
}

/// What a call of `may_reply` is, element by element.
pub proof fn lemma_executed<R: Runtime>(
    rt: R,
    f: FunctionOf<R>,
    before: StateView<R>,
    after: StateView<R>,
    reply: Result<bool, R::Error>,
)
    requires
        may_reply(rt, f, before, after, reply),
    ensures
        after.calls.len() == before.calls.len() + 1,
        after.calls.drop_last() == before.calls,
        executed(rt, f, after.calls.last()),
        after.calls.last()->reply == reply,
        after.calls.last()->Execution_before == (StacksView {
            values: before.values,
            functions: before.functions,
        }),
        after.calls.last()->Execution_after == (StacksView {
            values: after.values,
            functions: after.functions,
        }),
{
    let (s, t) = choose|s: StacksOf<R>, t: StacksOf<R>|
        s@ == before.stacks() && t@ == after.stacks() && #[trigger] call_ensures(
            R::call_catch_break,
            (&rt, &f, s),
            (t, reply),
        );
    let call = after.calls.last();
    assert(hold::<R>(s, call->Execution_before)) by {
        assert forall|i: int| 0 <= i < before.values.len() implies (#[trigger] s.values@[i])@
            == before.values[i] by {
            assert(s@.values[i] == before.values[i]);
        }
    }
    assert(hold::<R>(t, call->Execution_after)) by {
        assert forall|i: int| 0 <= i < after.values.len() implies (#[trigger] t.values@[i])@
            == after.values[i] by {
            assert(t@.values[i] == after.values[i]);
        }
    }
    assert(after.calls.drop_last() == before.calls);
}

/// The calls of a reduction from position `k` on.
pub open spec fn walks_from<R: Runtime>(
    rt: R,
    f: FunctionOf<R>,
    rows: Seq<ValueViewOf<R>>,
    k: int,
    acc: ValueViewOf<R>,
    s: StateView<R>,
    made: Seq<Call<R>>,
) -> bool {
    &&& made.len() <= rows.len() - k
    &&& forall|i: int|
        0 <= i < made.len() ==> executed(rt, f, #[trigger] made[i]) && made[i]->Execution_before
            == (StacksView {
            values: below(s, made, i).push(rows[k + i]).push(carried_to(acc, made, i)),
            functions: functions_at(s, made, i),
        })
    &&& forall|i: int|
        0 <= i < made.len() - 1 ==> (#[trigger] made[i])->reply == Ok::<bool, R::Error>(false)
            && made[i]->Execution_after.values.len() > 0
}

/// One call more in front.
proof fn lemma_walks_from<R: Runtime>(
    rt: R,
    f: FunctionOf<R>,
    rows: Seq<ValueViewOf<R>>,
    k: int,
    acc: ValueViewOf<R>,
    s: StateView<R>,
    call: Call<R>,
    u: StateView<R>,
    next: ValueViewOf<R>,
    rest: Seq<Call<R>>,
)
    requires
        k < rows.len(),
        executed(rt, f, call),
        call->Execution_before == (StacksView {
            values: s.values.push(rows[k]).push(acc),
            functions: s.functions,
        }),
        rest.len() == 0 || {
            &&& call->reply == Ok::<bool, R::Error>(false)
            &&& call->Execution_after.values.len() > 0
            &&& u.values == call->Execution_after.values.drop_last()
            &&& u.functions == call->Execution_after.functions
            &&& next == call->Execution_after.values.last()
            &&& walks_from(rt, f, rows, k + 1, next, u, rest)
        },
    ensures
        walks_from(rt, f, rows, k, acc, s, seq![call] + rest),
{
    let made = seq![call] + rest;
    assert forall|i: int| 0 <= i < made.len() implies executed(rt, f, #[trigger] made[i])
        && made[i]->Execution_before == (StacksView {
        values: below(s, made, i).push(rows[k + i]).push(carried_to(acc, made, i)),
        functions: functions_at(s, made, i),
    }) by {
        if i > 0 {
            assert(made[i] == rest[i - 1]);
            assert(k + 1 + (i - 1) == k + i);
            if i > 1 {
                assert(made[i - 1] == rest[i - 2]);
            }
        }
    }
    assert forall|i: int| 0 <= i < made.len() - 1 implies (#[trigger] made[i])->reply == Ok::<
        bool,
        R::Error,
    >(false) && made[i]->Execution_after.values.len() > 0 by {
        if i > 0 {
            assert(made[i] == rest[i - 1]);
        }
    }
}

/// The calls of a reduction by calls, and what comes of them.
pub proof fn lemma_accumulates_trace<R: Runtime>(
    rt: R,
    f: FunctionOf<R>,
    rows: Seq<ValueViewOf<R>>,
    k: int,
    acc: ValueViewOf<R>,
    s: StateView<R>,
    end: StateView<R>,
    result: Result<ValueViewOf<R>, ErrorViewOf<R>>,
) -> (made: Seq<Call<R>>)
    requires
        0 <= k <= rows.len(),
        accumulates(rt, f, rows, k, acc, s, end, result),
    ensures
        end.calls == s.calls + made,
        walks_from(rt, f, rows, k, acc, s, made),
        made.len() == 0 ==> k == rows.len() && end == s && result == Ok::<_, ErrorViewOf<R>>(acc),
        made.len() > 0 ==> match made.last()->reply {
            Err(e) => {
                &&& end.stacks() == made.last()->Execution_after
                &&& result == Err::<ValueViewOf<R>, _>(ErrorView::<R::Error>::Runtime(e))
            },
            Ok(broke) => if made.last()->Execution_after.values.len() == 0 {
                &&& end.stacks() == made.last()->Execution_after
                &&& result == Err::<ValueViewOf<R>, _>(
                    ErrorView::<R::Error>::EmptyStack(Wanted::ReducedResult),
                )
            } else {
                &&& end.values == made.last()->Execution_after.values.drop_last()
                &&& end.functions == made.last()->Execution_after.functions
                &&& result == Ok::<_, ErrorViewOf<R>>(made.last()->Execution_after.values.last())
                &&& broke || made.len() == rows.len() - k
            },
        },
    decreases rows.len() - k,
{
    if k == rows.len() {
        assert(end.calls == s.calls + Seq::<Call<R>>::empty());
        Seq::empty()
    } else {
        let (t, reply) = first_accumulated(rt, f, rows, k, acc, s, end, result);
        lemma_executed(rt, f, s.push(rows[k]).push(acc), t, reply);
        let call = t.calls.last();
        let made = match accumulated::<R>(t, reply) {
            Step::Go(u, next) => {
                let rest = lemma_accumulates_trace(rt, f, rows, k + 1, next, u, end, result);
                lemma_walks_from(rt, f, rows, k, acc, s, call, u, next, rest);
                let made = seq![call] + rest;
                if rest.len() > 0 {
                    assert(made.last() == rest.last());
                } else {
                    assert(made.last() == call);
                }
                made
            },
            Step::Stop(u, r) => {
                lemma_walks_from(rt, f, rows, k, acc, s, call, t, acc, Seq::empty());
                seq![call] + Seq::<Call<R>>::empty()
            },
        };
        assert(end.calls == s.calls + made) by {
            assert(t.calls == s.calls.push(call));
        }
        made
    }
}

/// Whether rows were put together in the state that has `values` and `functions` on its stacks, and
/// what came of it is what is on the stack in the end.
pub open spec fn put_on<R: Runtime>(
    rt: R,
    call: Call<R>,
    values: Seq<ValueViewOf<R>>,
    functions: Seq<Arc<FunctionOf<R>>>,
    end: StateView<R>,
    result: Result<(), ErrorViewOf<R>>,
) -> bool {
    &&& put_together(rt, call)
    &&& end.functions == functions
    &&& match call->made {
        Ok(value) => end.values == values.push(value) && result == Ok::<(), ErrorViewOf<R>>(()),
        Err(e) => end.values == values && result == Err::<(), _>(
            ErrorView::<R::Error>::Runtime(e),
        ),
    }
}

/// What putting rows together is, element by element.
pub proof fn lemma_put_on<R: Runtime>(
    rt: R,
    rows: Seq<ValueViewOf<R>>,
    s: StateView<R>,
    end: StateView<R>,
    result: Result<(), ErrorViewOf<R>>,
)
    requires
        collects(rt, rows, s, end, result),
    ensures
        end.calls.len() == s.calls.len() + 1,
        end.calls.drop_last() == s.calls,
        end.calls.last() is Making,
        end.calls.last()->rows == rows,
        put_on(rt, end.calls.last(), s.values, s.functions, end, result),
{
    let made = choose|made: Result<ValueViewOf<R>, R::Error>| #[trigger]
        may_make(rt, rows, made) && placed::<R>(made, s.called(Call::Making { rows, made })) == (
            end,
            result,
        );
    let (list, value) = choose|list: Vec<ValueOf<R>>, value: Result<ValueOf<R>, R::Error>|
        views(list@) == rows && result_view(value) == made
            && #[trigger] call_ensures(R::from_row_values, (&rt, list), value);
    assert(list@.len() == rows.len()) by {
        assert(views(list@).len() == list@.len());
    }
    assert forall|i: int| 0 <= i < rows.len() implies (#[trigger] list@[i])@ == rows[i] by {
        assert(views(list@)[i] == list@[i]@);
    }
    let call = end.calls.last();
    assert(call == Call::<R>::Making { rows, made });
    assert(end.calls.drop_last() == s.calls);
    assert(put_together(rt, call));
}

/// How many of the calls that `made` lists come before rows are put together.
pub open spec fn executions<R: Runtime>(made: Seq<Call<R>>) -> int {
    if made.len() > 0 && made.last() is Making {
        made.len() - 1
    } else {
        made.len() as int
    }
}

/// Whether `list` holds the first row of `rows`, then what each of the first `n` calls gave, then
/// the rows of `rows` that come after these.
pub open spec fn lists_results<R: Runtime>(
    rows: Seq<ValueViewOf<R>>,
    made: Seq<Call<R>>,
    n: int,
    list: Seq<ValueViewOf<R>>,
) -> bool {
    &&& list.len() == rows.len()
    &&& list[0] == rows[0]
    &&& forall|i: int|
        1 <= i < list.len() ==> #[trigger] list[i] == if i <= n {
            made[i - 1]->Execution_after.values.last()
        } else {
            rows[i]
        }
}

/// What is on the stack of values when the rows of a scan are put together: after a break, no more
/// than was there before the last call took its arguments.
pub open spec fn left_by_scan<R: Runtime>(s: StateView<R>, made: Seq<Call<R>>, n: int) -> Seq<
    ValueViewOf<R>,
> {
    let height = below(s, made, n - 1).len();
    if n > 0 && made[n - 1]->reply == Ok::<bool, R::Error>(true) && height <= below(
        s,
        made,
        n,
    ).len() {
        below(s, made, n).take(height as int)
    } else {
        below(s, made, n)
    }
}

/// Whether scanning `rows` by calling a function of two values went as it should between the states
/// `s` and `end`: the function is called on each row after the first until it breaks, and the first
/// row, what the calls gave and the rows that are left are put together.
pub open spec fn scans_along<R: Runtime>(
    rt: R,
    f: FunctionOf<R>,
    rows: Seq<ValueViewOf<R>>,
    s: StateView<R>,
    end: StateView<R>,
    result: Result<(), ErrorViewOf<R>>,
    made: Seq<Call<R>>,
) -> bool {
    let n = executions(made);
    &&& made_between(s, end, made)
    &&& walks(rt, f, rows, s, made, n)
    &&& if walked_through(rows, made, n) {
        &&& made.len() == n + 1
        &&& made.last() is Making
        &&& lists_results::<R>(rows, made, n, made.last()->rows)
        &&& put_on(
            rt,
            made.last(),
            left_by_scan(s, made, n),
            functions_at(s, made, n),
            end,
            result,
        )
    } else {
        &&& made.len() == n
        &&& failed_at_last(made, Wanted::ScannedResult, end, result)
    }
}

/// The calls of a scan by calls, and what comes of them.
proof fn lemma_scans_trace<R: Runtime>(
    rt: R,
    f: FunctionOf<R>,
    rows: Seq<ValueViewOf<R>>,
    k: int,
    done: Seq<ValueViewOf<R>>,
    s: StateView<R>,
    end: StateView<R>,
    result: Result<Seq<ValueViewOf<R>>, ErrorViewOf<R>>,
) -> (made: Seq<Call<R>>)
    requires
        0 < k <= rows.len(),
        done.len() == k,
        scans_rows(rt, f, rows, k, done, s, end, result),
    ensures
        end.calls == s.calls + made,
        walks_from(rt, f, rows, k, done.last(), s, made),
        result matches Ok(list) ==> {
            &&& list.len() == rows.len()
            &&& list.take(k) == done
            &&& forall|i: int|
                k <= i < list.len() ==> #[trigger] list[i] == if i < k + made.len() {
                    made[i - k]->Execution_after.values.last()
                } else {
                    rows[i]
                }
        },
        made.len() == 0 ==> k == rows.len() && end == s && result is Ok,
        made.len() > 0 ==> match made.last()->reply {
            Err(e) => {
                &&& end.stacks() == made.last()->Execution_after
                &&& result == Err::<Seq<ValueViewOf<R>>, _>(ErrorView::<R::Error>::Runtime(e))
            },
            Ok(broke) => if made.last()->Execution_after.values.len() == 0 {
                &&& end.stacks() == made.last()->Execution_after
                &&& result == Err::<Seq<ValueViewOf<R>>, _>(
                    ErrorView::<R::Error>::EmptyStack(Wanted::ScannedResult),
                )
            } else {
                &&& end.values == left_by_scan(s, made, made.len() as int)
                &&& end.functions == made.last()->Execution_after.functions
                &&& result is Ok
                &&& broke || made.len() == rows.len() - k
            },
        },
    decreases rows.len() - k,
{
    if k == rows.len() {
        assert(end.calls == s.calls + Seq::<Call<R>>::empty());
        Seq::empty()
    } else {
        let (t, reply) = first_scanned(rt, f, rows, k, done, s, end, result);
        lemma_executed(rt, f, s.push(rows[k]).push(done.last()), t, reply);
        let call = t.calls.last();
        let made = match scanned_on::<R>(rows, k, done, s.values.len(), t, reply) {
            Step::Go(u, next) => {
                let rest = lemma_scans_trace(rt, f, rows, k + 1, next, u, end, result);
                lemma_walks_from(rt, f, rows, k, done.last(), s, call, u, t.top(), rest);
                let made = seq![call] + rest;
                if rest.len() > 0 {
                    assert(made.last() == rest.last());
                    assert(made[made.len() - 1] == rest[rest.len() - 1]);
                    if rest.len() > 1 {
                        assert(made[made.len() - 2] == rest[rest.len() - 2]);
                    }
                    assert(below(s, made, made.len() as int) == below(u, rest, rest.len() as int));
                    assert(below(s, made, made.len() - 1) == below(u, rest, rest.len() - 1));
                } else {
                    assert(made.last() == call);
                    assert(made[0] == call);
                }
                if let Ok(list) = result {
                    assert(list.take(k) == list.take(k + 1).take(k));
                    assert(next.take(k) == done);
                    assert forall|i: int| k <= i < list.len() implies #[trigger] list[i]
                        == if i < k + made.len() {
                        made[i - k]->Execution_after.values.last()
                    } else {
                        rows[i]
                    } by {
                        if i == k {
                            assert(list[k] == list.take(k + 1)[k]);
                        } else if i < k + made.len() {
                            assert(made[i - k] == rest[i - k - 1]);
                        }
                    }
                }
                made
            },
            Step::Stop(u, r) => {
                lemma_walks_from(rt, f, rows, k, done.last(), s, call, t, t.top(), Seq::empty());
                let made = seq![call] + Seq::<Call<R>>::empty();
                assert(made[0] == call);
                if let Ok(list) = result {
                    assert(list == done.push(t.top()) + rows.skip(k + 1));
                    assert(list.take(k) == done);
                }
                made
            },
        };
        assert(end.calls == s.calls + made) by {
            assert(t.calls == s.calls.push(call));
        }
        made
    }
}

/// Reducing by calling a function of two values is reducing along the rows.
pub proof fn lemma_reduces_along<R: Runtime>(
    rt: R,
    f: FunctionOf<R>,
    rows: Seq<ValueViewOf<R>>,
    s: StateView<R>,
    t: StateView<R>,
    last: Result<ValueViewOf<R>, ErrorViewOf<R>>,
    end: StateView<R>,
    result: Result<(), ErrorViewOf<R>>,
) -> (made: Seq<Call<R>>)
    requires
        rows.len() > 0,
        accumulates(rt, f, rows, 1, rows[0], s, t, last),
        match last {
            Ok(acc) => end == t.push(acc) && result == Ok::<(), ErrorViewOf<R>>(()),
            Err(e) => end == t && result == Err::<(), _>(e),
        },
    ensures
        reduces_along(rt, f, rows, s, end, result, made),
{
    let made = lemma_accumulates_trace(rt, f, rows, 1, rows[0], s, t, last);
    assert forall|i: int| 0 <= i < made.len() implies executed(rt, f, #[trigger] made[i])
        && made[i]->Execution_before == (StacksView {
        values: below(s, made, i).push(rows[i + 1]).push(carried_to(rows[0], made, i)),
        functions: functions_at(s, made, i),
    }) by {
        assert(1 + i == i + 1);
    }
    made
}

/// Scanning by calling a function of two values is scanning along the rows.
pub proof fn lemma_scans_along<R: Runtime>(
    rt: R,
    f: FunctionOf<R>,
    rows: Seq<ValueViewOf<R>>,
    s: StateView<R>,
    t: StateView<R>,
    list: Result<Seq<ValueViewOf<R>>, ErrorViewOf<R>>,
    end: StateView<R>,
    result: Result<(), ErrorViewOf<R>>,
) -> (made: Seq<Call<R>>)
    requires
        rows.len() > 0,
        scans_rows(rt, f, rows, 1, seq![rows[0]], s, t, list),
        match list {
            Ok(l) => collects(rt, l, t, end, result),
            Err(e) => end == t && result == Err::<(), _>(e),
        },
    ensures
        scans_along(rt, f, rows, s, end, result, made),
{
    let first = seq![rows[0]];
    let run = lemma_scans_trace(rt, f, rows, 1, first, s, t, list);
    let n = run.len() as int;
    assert(first.last() == rows[0]);
    if let Ok(l) = list {
        lemma_put_on(rt, l, t, end, result);
        let call = end.calls.last();
        let made = run.push(call);
        assert(executions(made) == n);
        assert(made.take(n) == run);
        assert(end.calls == s.calls + made) by {
            assert(end.calls == t.calls.push(call));
        }
        assert forall|i: int| 0 <= i < n implies executed(rt, f, #[trigger] made[i])
            && made[i]->Execution_before == (StacksView {
            values: below(s, made, i).push(rows[i + 1]).push(carried_to(rows[0], made, i)),
            functions: functions_at(s, made, i),
        }) by {
            assert(made[i] == run[i]);
            assert(1 + i == i + 1);
            if i > 0 {
                assert(made[i - 1] == run[i - 1]);
            }
        }
        assert forall|i: int| 0 <= i < n - 1 implies (#[trigger] made[i])->reply == Ok::<
            bool,
            R::Error,
        >(false) && made[i]->Execution_after.values.len() > 0 by {
            assert(made[i] == run[i]);
        }
        if n > 0 {
            assert(made[n - 1] == run[n - 1]);
            if n > 1 {
                assert(made[n - 2] == run[n - 2]);
            }
        }
        assert(l[0] == l.take(1)[0]);
        assert forall|i: int| 1 <= i < l.len() implies #[trigger] l[i] == if i <= n {
            made[i - 1]->Execution_after.values.last()
        } else {
            rows[i]
        } by {
            if i <= n {
                assert(made[i - 1] == run[i - 1]);
            }
        }
        made
    } else {
        assert(run.last() is Execution) by {
            assert(executed(rt, f, run[n - 1]));
        }
        assert forall|i: int| 0 <= i < run.len() implies executed(rt, f, #[trigger] run[i])
            && run[i]->Execution_before == (StacksView {
            values: below(s, run, i).push(rows[i + 1]).push(carried_to(rows[0], run, i)),
            functions: functions_at(s, run, i),
        }) by {
            assert(1 + i == i + 1);
        }
        run
    }
}

/// What is on the stack of values before the call at position `i` takes its argument, where calls
/// take at most one: what was there at the start, or what the call before left.
pub open spec fn left_at<R: Runtime>(s: StateView<R>, made: Seq<Call<R>>, i: int) -> Seq<
    ValueViewOf<R>,
> {
    if i == 0 {
        s.values
    } else {
        made[i - 1]->Execution_after.values
    }
}

/// Whether the first `n` calls that `made` lists execute `f`, each on the row in its place, and
/// none of them but the last fails or breaks.
pub open spec fn fed<R: Runtime>(
    rt: R,
    f: FunctionOf<R>,
    rows: Seq<ValueViewOf<R>>,
    s: StateView<R>,
    made: Seq<Call<R>>,
    n: int,
) -> bool {
    &&& 0 <= n <= made.len()
    &&& n <= rows.len()
    &&& forall|i: int|
        0 <= i < n ==> executed(rt, f, #[trigger] made[i]) && made[i]->Execution_before == (
        StacksView {
            values: left_at(s, made, i).push(rows[i]),
            functions: functions_at(s, made, i),
        })
    &&& forall|i: int|
        0 <= i < n - 1 ==> (#[trigger] made[i])->reply == Ok::<bool, R::Error>(false)
}

/// What comes of reducing `rows` by calling a function of `args` values, at most one, where the
/// last of `n` calls left `values` and `functions` and gave `reply`.
pub open spec fn fed_outcome<R: Runtime>(
    rt: R,
    args: usize,
    row_count: nat,
    values: Seq<ValueViewOf<R>>,
    functions: Seq<Arc<FunctionOf<R>>>,
    reply: Result<bool, R::Error>,
    made: Seq<Call<R>>,
    n: int,
    end: StateView<R>,
    result: Result<(), ErrorViewOf<R>>,
) -> bool {
    if reply == Ok::<bool, R::Error>(true) && args == 0 {
        &&& made.len() == n + 1
        &&& made.last() is Making
        &&& made.last()->rows.len() == 0
        &&& put_on(rt, made.last(), values, functions, end, result)
    } else if reply == Ok::<bool, R::Error>(true) && values.len() > 0 {
        &&& made.len() == n + 1
        &&& made.last() is Making
        &&& made.last()->rows == seq![values.last()]
        &&& put_on(rt, made.last(), values.drop_last(), functions, end, result)
    } else {
        &&& made.len() == n
        &&& end.values == values
        &&& end.functions == functions
        &&& match reply {
            Err(e) => result == Err::<(), _>(ErrorView::<R::Error>::Runtime(e)),
            Ok(true) => result == Err::<(), _>(
                ErrorView::<R::Error>::EmptyStack(Wanted::ReducedResult),
            ),
            Ok(false) => n == row_count && result == Ok::<(), ErrorViewOf<R>>(()),
        }
    }
}

/// What the last of the first `n` calls replied. Where there is none, nothing broke.
pub open spec fn last_reply<R: Runtime>(made: Seq<Call<R>>, n: int) -> Result<bool, R::Error> {
    if n == 0 {
        Ok(false)
    } else {
        made[n - 1]->reply
    }
}

/// Whether reducing `rows` by calling a function of at most one value went as it should between the
/// states `s` and `end`: the function is called on each row until it breaks, what it leaves stays,
/// and after a break the value on top, if the function takes one, becomes the only row of a value.
pub open spec fn feeds_along<R: Runtime>(
    rt: R,
    f: FunctionOf<R>,
    rows: Seq<ValueViewOf<R>>,
    s: StateView<R>,
    end: StateView<R>,
    result: Result<(), ErrorViewOf<R>>,
    made: Seq<Call<R>>,
) -> bool {
    let n = executions(made);
    &&& made_between(s, end, made)
    &&& fed(rt, f, rows, s, made, n)
    &&& fed_outcome(
        rt,
        f.signature.args,
        rows.len(),
        left_at(s, made, n),
        functions_at(s, made, n),
        last_reply(made, n),
        made,
        n,
        end,
        result,
    )
}

/// One call more in front.
proof fn lemma_fed<R: Runtime>(
    rt: R,
    f: FunctionOf<R>,
    rows: Seq<ValueViewOf<R>>,
    s: StateView<R>,
    t: StateView<R>,
    call: Call<R>,
    rest: Seq<Call<R>>,
    n: int,
)
    requires
        rows.len() > 0,
        executed(rt, f, call),
        call->Execution_before == (StacksView {
            values: s.values.push(rows[0]),
            functions: s.functions,
        }),
        call->Execution_after == (StacksView { values: t.values, functions: t.functions }),
        n == 0 || call->reply == Ok::<bool, R::Error>(false),
        fed(rt, f, rows.skip(1), t, rest, n),
    ensures
        fed(rt, f, rows, s, seq![call] + rest, n + 1),
        left_at(s, seq![call] + rest, n + 1) == left_at(t, rest, n),
        functions_at(s, seq![call] + rest, n + 1) == functions_at(t, rest, n),
{
    let made = seq![call] + rest;
    assert forall|i: int| 0 <= i < n + 1 implies executed(rt, f, #[trigger] made[i])
        && made[i]->Execution_before == (StacksView {
        values: left_at(s, made, i).push(rows[i]),
        functions: functions_at(s, made, i),
    }) by {
        if i > 0 {
            assert(made[i] == rest[i - 1]);
            assert(rows[i] == rows.skip(1)[i - 1]);
            if i > 1 {
                assert(made[i - 1] == rest[i - 2]);
            }
        }
    }
    assert forall|i: int| 0 <= i < n implies (#[trigger] made[i])->reply == Ok::<
        bool,
        R::Error,
    >(false) by {
        if i > 0 {
            assert(made[i] == rest[i - 1]);
        }
    }
    if n > 0 {
        assert(made[n] == rest[n - 1]);
    }
}

/// Reducing by calling a function of at most one value is feeding it the rows.
#[verifier::spinoff_prover]
#[verifier::rlimit(60)]
pub proof fn lemma_feeds_along<R: Runtime>(
    rt: R,
    f: FunctionOf<R>,
    rows: Seq<ValueViewOf<R>>,
    k: int,
    s: StateView<R>,
    end: StateView<R>,
    result: Result<(), ErrorViewOf<R>>,
) -> (made: Seq<Call<R>>)
    requires
        0 <= k <= rows.len(),
        f.signature.args < 2,
        feeds(rt, f, rows, k, s, end, result),
    ensures
        feeds_along(rt, f, rows.skip(k), s, end, result, made),
    decreases rows.len() - k,
{
    let tail = rows.skip(k);
    if k == rows.len() {
        let made = Seq::<Call<R>>::empty();
        assert(end.calls == s.calls + made);
        made
    } else {
        let (t, reply) = choose|t: StateView<R>, reply: Result<bool, R::Error>|
            #![trigger may_reply(rt, f, s.push(rows[k]), t, reply)]
            may_reply(rt, f, s.push(rows[k]), t, reply) && match reply {
                Err(e) => end == t && result == Err::<(), _>(ErrorView::Runtime(e)),
                Ok(true) => breaks_off(rt, f.signature.args, t, end, result),
                Ok(false) => feeds(rt, f, rows, k + 1, t, end, result),
            };
        lemma_executed(rt, f, s.push(rows[k]), t, reply);
        let call = t.calls.last();
        let none = Seq::<Call<R>>::empty();
        assert(t.calls == s.calls.push(call));
        assert(tail.skip(1) == rows.skip(k + 1));
        lemma_fed(rt, f, tail, s, t, call, none, 0);
        if reply == Ok::<bool, R::Error>(false) {
            let rest = lemma_feeds_along(rt, f, rows, k + 1, t, end, result);
            let m = executions(rest);
            let made = seq![call] + rest;
            lemma_fed(rt, f, tail, s, t, call, rest, m);
            assert(end.calls == s.calls + made);
            if rest.len() > 0 {
                assert(made.last() == rest.last());
            } else {
                assert(made.last() == call);
            }
            assert(executions(made) == m + 1);
            if m > 0 {
                assert(made[m] == rest[m - 1]);
            } else {
                assert(made[0] == call);
            }
            made
        } else if reply == Ok::<bool, R::Error>(true) && (f.signature.args == 0
            || t.values.len() > 0) {
            if f.signature.args == 0 {
                lemma_put_on(rt, Seq::empty(), t, end, result);
            } else {
                lemma_put_on(rt, seq![t.top()], t.pop(), end, result);
            }
            let rest = seq![end.calls.last()];
            let made = seq![call] + rest;
            lemma_fed(rt, f, tail, s, t, call, rest, 0);
            assert(end.calls == t.calls.push(end.calls.last()));
            assert(end.calls == s.calls + made);
            assert(made[0] == call && made.last() == end.calls.last());
            assert(executions(made) == 1);
            made
        } else {
            let made = seq![call] + none;
            assert(end.calls == s.calls + made);
            assert(made[0] == call && made.last() == call);
            assert(executions(made) == 1);
            made
        }
    }
}

} // verus!
