//! Folding is sound: the program that a script compiles to does what the
//! tokens of the script do one by one.
//!
//! Two runs are compared, one of the program that takes every token by
//! itself and one of the program that the script compiles to. Where the
//! first comes to its end, to a read or to a write, and so has not left
//! the tape on the way, the second comes to the same place, with the same
//! tape and pointer, and asks the caller for the same. What the caller
//! hands back keeps the two aligned, so that the comparison goes on for as
//! long as the first run stays on the tape.
//!
//! That condition cannot be dropped. Taken one by one, the two tokens of
//! `<>` fail on the first cell, where there is nothing to the left; folded
//! they are no instruction at all.

use vstd::prelude::*;
use crate::error::{Fault, RuntimeError};
use crate::instruction::{Op, CLOSE, COMMA, DOT, GREATER, LESS, MINUS, OPEN, PLUS};
use crate::machine::{
    answer, fed, lemma_run_split, pause, put, run, step, wrap, Action, State, MEMORY_SIZE,
};
use crate::structure::{lemma_scan_tidy, sound, tidy};
use crate::syntax::{
    compile, fold_down, fold_left, fold_right, fold_up, literal, scan, spelled, Scan,
};

verus! {

/// Whether a token is one that is never folded: a loop bracket, a read or
/// a write.
pub open spec fn barrier(token: u8) -> bool {
    token == OPEN || token == CLOSE || token == COMMA || token == DOT
}

/// Whether an operation is one that is never folded.
spec fn fixed(op: Op) -> bool {
    !op.is_move() && !op.is_change()
}

/// The scan of a script, with folding or without.
spec fn pass(script: Seq<u8>, fold: bool) -> Result<Scan, Fault> {
    if fold {
        scan(script)
    } else {
        spelled(script)
    }
}

/// One more byte, with folding or without.
spec fn apply(state: Scan, token: u8, fold: bool) -> Result<Scan, Fault> {
    if fold {
        state.consume(token)
    } else {
        state.spell(token)
    }
}

/// The state after the first `read` bytes of a script.
spec fn stage(script: Seq<u8>, read: int, fold: bool) -> Scan {
    pass(script.take(read), fold)->Ok_0
}

/// The places in a script of the loops that it leaves open, the
/// innermost last.
spec fn marks(script: Seq<u8>) -> Seq<int>
    decreases script.len(),
{
    if script.len() == 0 {
        Seq::empty()
    } else {
        let before = marks(script.drop_last());
        if script.last() == OPEN {
            before.push(script.len() - 1)
        } else if script.last() == CLOSE {
            before.drop_last()
        } else {
            before
        }
    }
}

/// The scan of one more byte is the scan, then that byte.
proof fn lemma_pass_next(script: Seq<u8>, read: int, fold: bool)
    requires
        0 <= read < script.len(),
    ensures
        pass(script.take(read + 1), fold) == match pass(script.take(read), fold) {
            Ok(state) => apply(state, script[read], fold),
            Err(fault) => Err(fault),
        },
        marks(script.take(read + 1)) == if script[read] == OPEN {
            marks(script.take(read)).push(read)
        } else if script[read] == CLOSE {
            marks(script.take(read)).drop_last()
        } else {
            marks(script.take(read))
        },
{
    assert(script.take(read + 1).drop_last() =~= script.take(read));
}

/// A script that is scanned to its end was scanned to every place in it.
proof fn lemma_pass_prefix(script: Seq<u8>, read: int, fold: bool)
    requires
        0 <= read <= script.len(),
        pass(script, fold) is Ok,
    ensures
        pass(script.take(read), fold) is Ok,
    decreases script.len() - read,
{
    if read == script.len() {
        assert(script.take(read) =~= script);
    } else {
        lemma_pass_prefix(script, read + 1, fold);
        lemma_pass_next(script, read, fold);
    }
}

/// Whether an operation is what another has become in the course of a
/// scan: the same, or a placeholder that has learnt its target.
spec fn same(before: Op, after: Op) -> bool {
    before == after || (before == Op::StartLoop(0) && after is StartLoop)
}

/// One more byte changes nothing at or before an operation that is never
/// folded, but for the placeholder that a `]` gives its target.
proof fn lemma_apply_keeps(state: Scan, token: u8, fold: bool, index: int, anchor: int)
    requires
        0 <= index <= anchor < state.program.len(),
        fixed(state.program[anchor]),
        apply(state, token, fold) is Ok,
        token == CLOSE ==> state.open.last().index < state.program.len()
            && state.program[state.open.last().index as int] == Op::StartLoop(0),
    ensures
        anchor < apply(state, token, fold)->Ok_0.program.len(),
        fixed(apply(state, token, fold)->Ok_0.program[anchor]),
        same(state.program[index], apply(state, token, fold)->Ok_0.program[index]),
        token != CLOSE ==> apply(state, token, fold)->Ok_0.program[index] == state.program[index],
        token != CLOSE && token != OPEN ==> apply(state, token, fold)->Ok_0.open == state.open,
{
    let program = state.program;
    if anchor == program.len() - 1 {
        assert(fixed(program.last()));
    }
}

/// Whether the open loops of a state are those that `marks` gives for the
/// first `read` bytes of the script: placeholders in the program, kept
/// outermost first, each at the index that the program had reached when
/// its bracket was read.
spec fn hooked(script: Seq<u8>, read: int, fold: bool) -> bool {
    let state = stage(script, read, fold);
    let places = marks(script.take(read));
    &&& state.open.len() == places.len()
    &&& forall|k: int|
        0 <= k < places.len() ==> {
            &&& 0 <= #[trigger] places[k] < read
            &&& script[places[k]] == OPEN
            &&& state.open[k].index == stage(script, places[k], fold).program.len()
            &&& state.open[k].index < state.program.len()
            &&& state.program[state.open[k].index as int] == Op::StartLoop(0)
        }
    &&& forall|k: int, l: int|
        0 <= k < l < places.len() ==> (#[trigger] state.open[k]).index < (
        #[trigger] state.open[l]).index
}

/// Every state that a scan reaches, with folding or without, has its
/// open loops where `marks` says.
proof fn lemma_hooked(script: Seq<u8>, read: int, fold: bool)
    requires
        0 <= read <= script.len(),
        pass(script.take(read), fold) is Ok,
    ensures
        hooked(script, read, fold),
    decreases read,
{
    if read == 0 {
        assert(script.take(0) =~= Seq::<u8>::empty());
    } else {
        let last = read - 1;
        lemma_pass_next(script, last, fold);
        lemma_hooked(script, last, fold);
        let before = stage(script, last, fold);
        let after = stage(script, read, fold);
        let token = script[last];
        let old_places = marks(script.take(last));
        let places = marks(script.take(read));
        assert(apply(before, token, fold) == Ok::<Scan, Fault>(after));
        if token == OPEN {
            assert forall|k: int| 0 <= k < places.len() implies {
                &&& 0 <= #[trigger] places[k] < read
                &&& script[places[k]] == OPEN
                &&& after.open[k].index == stage(script, places[k], fold).program.len()
                &&& after.open[k].index < after.program.len()
                &&& after.program[after.open[k].index as int] == Op::StartLoop(0)
            } by {
                if k < old_places.len() {
                    assert(places[k] == old_places[k]);
                    assert(after.open[k] == before.open[k]);
                }
            }
            assert forall|k: int, l: int| 0 <= k < l < places.len() implies (
            #[trigger] after.open[k]).index < (#[trigger] after.open[l]).index by {
                assert(after.open[k] == before.open[k]);
                assert(places[k] == old_places[k]);
                if l < old_places.len() {
                    assert(after.open[l] == before.open[l]);
                }
            }
        } else if token == CLOSE {
            let top = old_places.len() - 1;
            assert forall|k: int| 0 <= k < places.len() implies {
                &&& 0 <= #[trigger] places[k] < read
                &&& script[places[k]] == OPEN
                &&& after.open[k].index == stage(script, places[k], fold).program.len()
                &&& after.open[k].index < after.program.len()
                &&& after.program[after.open[k].index as int] == Op::StartLoop(0)
            } by {
                assert(places[k] == old_places[k]);
                assert(after.open[k] == before.open[k]);
                assert(before.open[k].index < before.open[top].index);
                assert(0 <= old_places[top] < last);
                assert(before.open.last() == before.open[top]);
                let index = before.open[k].index as int;
                assert(before.program[index] == Op::StartLoop(0));
                assert(after.program[index] == before.program[index]);
            }
            assert forall|k: int, l: int| 0 <= k < l < places.len() implies (
            #[trigger] after.open[k]).index < (#[trigger] after.open[l]).index by {
                assert(after.open[k] == before.open[k]);
                assert(after.open[l] == before.open[l]);
            }
        } else {
            assert(after.open == before.open);
            assert(places == old_places);
            assert forall|k: int| 0 <= k < places.len() implies {
                &&& 0 <= #[trigger] places[k] < read
                &&& script[places[k]] == OPEN
                &&& after.open[k].index == stage(script, places[k], fold).program.len()
                &&& after.open[k].index < after.program.len()
                &&& after.program[after.open[k].index as int] == Op::StartLoop(0)
            } by {
                let index = before.open[k].index as int;
                assert(0 <= old_places[k] < last);
                assert(before.program[index] == Op::StartLoop(0));
                lemma_apply_keeps(before, token, fold, index, index);
            }
        }
    }
}

/// A script is scanned to its end with folding exactly if it is without,
/// and the same loops are then left open.
proof fn lemma_pass_alike(script: Seq<u8>, read: int)
    requires
        0 <= read <= script.len(),
    ensures
        pass(script.take(read), true) is Ok <==> pass(script.take(read), false) is Ok,
        pass(script.take(read), true) is Ok ==> stage(script, read, true).open.len() == stage(
            script,
            read,
            false,
        ).open.len(),
    decreases read,
{
    if read == 0 {
        assert(script.take(0) =~= Seq::<u8>::empty());
    } else {
        lemma_pass_alike(script, read - 1);
        lemma_pass_next(script, read - 1, true);
        lemma_pass_next(script, read - 1, false);
        if pass(script.take(read - 1), true) is Ok {
            lemma_hooked(script, read - 1, true);
            lemma_hooked(script, read - 1, false);
        }
        if pass(script.take(read), true) is Ok {
            lemma_hooked(script, read, true);
            lemma_hooked(script, read, false);
        }
    }
}

/// Whatever is read later changes nothing at or before an operation that
/// is never folded, but for the placeholders that learn their targets.
proof fn lemma_stage_keeps(
    script: Seq<u8>,
    from: int,
    to: int,
    fold: bool,
    index: int,
    anchor: int,
)
    requires
        0 <= from <= to <= script.len(),
        pass(script.take(to), fold) is Ok,
        0 <= index <= anchor < stage(script, from, fold).program.len(),
        fixed(stage(script, from, fold).program[anchor]),
    ensures
        anchor < stage(script, to, fold).program.len(),
        fixed(stage(script, to, fold).program[anchor]),
        same(stage(script, from, fold).program[index], stage(script, to, fold).program[index]),
    decreases to - from,
{
    if from < to {
        lemma_pass_next(script, to - 1, fold);
        lemma_stage_keeps(script, from, to - 1, fold, index, anchor);
        lemma_hooked(script, to - 1, fold);
        let before = stage(script, to - 1, fold);
        if script[to - 1] == CLOSE {
            let top = before.open.len() - 1;
            assert(0 <= marks(script.take(to - 1))[top]);
            assert(before.open.last() == before.open[top]);
        }
        lemma_apply_keeps(before, script[to - 1], fold, index, anchor);
    }
}

/// Folding a move or a cell change into a program does not reach behind
/// an operation that is never folded: what stands up to it stays, and
/// the rest is folded as if it stood alone.
proof fn lemma_fold_behind(base: Seq<Op>, rest: Seq<Op>)
    requires
        base.len() > 0 ==> fixed(base.last()),
    ensures
        fold_left(base + rest) == base + fold_left(rest),
        fold_right(base + rest) == base + fold_right(rest),
        fold_up(base + rest) == base + fold_up(rest),
        fold_down(base + rest) == base + fold_down(rest),
{
    if rest.len() > 0 {
        assert((base + rest).last() == rest.last());
        assert((base + rest).drop_last() =~= base + rest.drop_last());
        assert forall|op: Op| #[trigger] (base + rest.drop_last()).push(op) =~= base
            + rest.drop_last().push(op) by {}
        assert forall|op: Op| #[trigger] (base + rest).push(op) =~= base + rest.push(op) by {}
    } else {
        assert(base + rest =~= base);
        assert forall|op: Op| #[trigger] base.push(op) =~= base + rest.push(op) by {}
    }
    assert(fold_left(base + rest) =~= base + fold_left(rest));
    assert(fold_right(base + rest) =~= base + fold_right(rest));
    assert(fold_up(base + rest) =~= base + fold_up(rest));
    assert(fold_down(base + rest) =~= base + fold_down(rest));
}

/// Whether no byte of a script from `from` up to `to` is a barrier.
spec fn clear(script: Seq<u8>, from: int, to: int) -> bool {
    forall|i: int| from <= i < to ==> !barrier(#[trigger] script[i])
}

/// Behind an operation that is never folded, a stretch of the script
/// without barriers is scanned as if it stood alone: its program is
/// appended, and the open loops stay.
proof fn lemma_stage_stretch(script: Seq<u8>, from: int, to: int, fold: bool)
    requires
        0 <= from <= to <= script.len(),
        clear(script, from, to),
        pass(script.take(from), fold) is Ok,
        stage(script, from, fold).program.len() > 0 ==> fixed(
            stage(script, from, fold).program.last(),
        ),
    ensures
        pass(script.take(to), fold) is Ok,
        pass(script.subrange(from, to), fold) is Ok,
        pass(script.subrange(from, to), fold)->Ok_0.open.len() == 0,
        stage(script, to, fold).open == stage(script, from, fold).open,
        stage(script, to, fold).program == stage(script, from, fold).program + pass(
            script.subrange(from, to),
            fold,
        )->Ok_0.program,
    decreases to - from,
{
    let base = stage(script, from, fold).program;
    if from == to {
        assert(script.subrange(from, to) =~= Seq::<u8>::empty());
        assert(base + Seq::<Op>::empty() =~= base);
    } else {
        let last = to - 1;
        let token = script[last];
        assert(!barrier(token));
        lemma_stage_stretch(script, from, last, fold);
        lemma_pass_next(script, last, fold);
        let stretch = script.subrange(from, to);
        assert(stretch.drop_last() =~= script.subrange(from, last));
        assert(stretch.last() == token);
        let alone = pass(script.subrange(from, last), fold)->Ok_0;
        lemma_fold_behind(base, alone.program);
        assert forall|op: Op| #[trigger] (base + alone.program).push(op) =~= base
            + alone.program.push(op) by {}
    }
}

/// The index that the program has reached after the first `read` bytes
/// of a script.
spec fn reach(script: Seq<u8>, read: int, fold: bool) -> nat {
    stage(script, read, fold).program.len()
}

/// The program that the whole script is scanned to.
spec fn whole(script: Seq<u8>, fold: bool) -> Seq<Op> {
    pass(script, fold)->Ok_0.program
}

/// The whole script is its own last stage.
proof fn lemma_whole(script: Seq<u8>, fold: bool)
    ensures
        stage(script, script.len() as int, fold).program == whole(script, fold),
        pass(script.take(script.len() as int), fold) == pass(script, fold),
{
    assert(script.take(script.len() as int) =~= script);
}

/// A barrier becomes one instruction, behind all that was read before it,
/// and that instruction is never folded.
proof fn lemma_behind_barrier(script: Seq<u8>, at: int, fold: bool)
    requires
        0 <= at < script.len(),
        barrier(script[at]),
        pass(script.take(at + 1), fold) is Ok,
    ensures
        pass(script.take(at), fold) is Ok,
        reach(script, at + 1, fold) == reach(script, at, fold) + 1,
        fixed(stage(script, at + 1, fold).program.last()),
        script[at] == COMMA ==> stage(script, at + 1, fold).program.last() == Op::Read,
        script[at] == DOT ==> stage(script, at + 1, fold).program.last() == Op::Write,
        script[at] == OPEN ==> stage(script, at + 1, fold).program.last() == Op::StartLoop(0),
        script[at] == CLOSE ==> stage(script, at + 1, fold).program.last() is EndLoop,
        forall|i: int|
            0 <= i < reach(script, at, fold) ==> same(
                stage(script, at, fold).program[i],
                #[trigger] stage(script, at + 1, fold).program[i],
            ),
{
    lemma_pass_next(script, at, fold);
    lemma_hooked(script, at, fold);
    let before = stage(script, at, fold);
    let after = stage(script, at + 1, fold);
    let token = script[at];
    assert(apply(before, token, fold) == Ok::<Scan, Fault>(after));
    if token == CLOSE {
        let top = before.open.len() - 1;
        assert(0 <= marks(script.take(at))[top]);
        assert(before.open.last() == before.open[top]);
        assert(after.program == before.closed().program);
    } else if token == OPEN {
        assert(after.program == before.opened().program);
    } else if token == COMMA {
        assert(after.program == before.program.push(Op::Read));
    } else {
        assert(after.program == before.program.push(Op::Write));
    }
}

/// In the whole program a barrier has its instruction at the index that
/// the program had reached when the barrier was read, and the index
/// behind it is the one reached thereafter.
proof fn lemma_barrier_site(script: Seq<u8>, at: int, fold: bool)
    requires
        pass(script, fold) is Ok,
        0 <= at < script.len(),
        barrier(script[at]),
    ensures
        reach(script, at, fold) < whole(script, fold).len(),
        reach(script, at + 1, fold) == reach(script, at, fold) + 1,
        script[at] == COMMA ==> whole(script, fold)[reach(script, at, fold) as int] == Op::Read,
        script[at] == DOT ==> whole(script, fold)[reach(script, at, fold) as int] == Op::Write,
        script[at] == OPEN ==> whole(script, fold)[reach(script, at, fold) as int] is StartLoop,
        script[at] == CLOSE ==> whole(script, fold)[reach(script, at, fold) as int] is EndLoop,
{
    lemma_pass_prefix(script, at + 1, fold);
    lemma_behind_barrier(script, at, fold);
    lemma_whole(script, fold);
    let index = reach(script, at, fold) as int;
    lemma_stage_keeps(script, at + 1, script.len() as int, fold, index, index);
}

/// In the whole program the two brackets of a loop hold each other's
/// index: the `]` at `end` belongs to the innermost loop that was open
/// when it was read.
proof fn lemma_pair_site(script: Seq<u8>, end: int, fold: bool)
    requires
        pass(script, fold) is Ok,
        0 <= end < script.len(),
        script[end] == CLOSE,
    ensures
        marks(script.take(end)).len() > 0,
        0 <= marks(script.take(end)).last() < end,
        script[marks(script.take(end)).last()] == OPEN,
        reach(script, marks(script.take(end)).last(), fold) < reach(script, end, fold),
        reach(script, end, fold) < whole(script, fold).len(),
        whole(script, fold)[reach(script, end, fold) as int] == Op::EndLoop(
            reach(script, marks(script.take(end)).last(), fold),
        ),
        whole(script, fold)[reach(script, marks(script.take(end)).last(), fold) as int]
            == Op::StartLoop(reach(script, end, fold)),
{
    lemma_pass_prefix(script, end + 1, fold);
    lemma_pass_next(script, end, fold);
    lemma_hooked(script, end, fold);
    lemma_whole(script, fold);
    let before = stage(script, end, fold);
    let places = marks(script.take(end));
    let top = places.len() - 1;
    assert(0 <= places[top] < end);
    assert(before.open.last() == before.open[top]);
    let start = reach(script, places[top], fold) as int;
    let close = reach(script, end, fold) as int;
    let after = stage(script, end + 1, fold);
    assert(after.program[close] == Op::EndLoop(start as nat));
    assert(after.program[start] == Op::StartLoop(close as nat));
    lemma_stage_keeps(script, end + 1, script.len() as int, fold, start, close);
    lemma_stage_keeps(script, end + 1, script.len() as int, fold, close, close);
}

/// A `[` is still open at a later place in the script, or a `]` before
/// that place has closed it.
proof fn lemma_mark_fate(script: Seq<u8>, start: int, read: int)
    requires
        0 <= start < read <= script.len(),
        script[start] == OPEN,
    ensures
        (exists|k: int|
            0 <= k < marks(script.take(read)).len() && #[trigger] marks(script.take(read))[k]
                == start) || (exists|end: int|
            start < end < read && script[end] == CLOSE && marks(script.take(end)).len() > 0
                && (#[trigger] marks(script.take(end))).last() == start),
    decreases read - start,
{
    lemma_pass_next(script, read - 1, true);
    let before = marks(script.take(read - 1));
    let after = marks(script.take(read));
    if read - 1 == start {
        assert(after[after.len() - 1] == start);
    } else {
        lemma_mark_fate(script, start, read - 1);
        if exists|k: int| 0 <= k < before.len() && #[trigger] before[k] == start {
            let k = choose|k: int| 0 <= k < before.len() && #[trigger] before[k] == start;
            if script[read - 1] == CLOSE {
                if k == before.len() - 1 {
                    assert(marks(script.take(read - 1)).last() == start);
                } else {
                    assert(after[k] == start);
                }
            } else {
                assert(after[k] == start);
            }
        }
    }
}

/// The place of the `]` that closes the `[` at `start`.
spec fn closer(script: Seq<u8>, start: int) -> int {
    choose|end: int|
        start < end < script.len() && script[end] == CLOSE && marks(script.take(end)).len() > 0
            && (#[trigger] marks(script.take(end))).last() == start
}

/// In a script that leaves no loop open, every `[` has the `]` that
/// closes it.
proof fn lemma_closer(script: Seq<u8>, start: int)
    requires
        compile(script) is Ok,
        0 <= start < script.len(),
        script[start] == OPEN,
    ensures
        start < closer(script, start) < script.len(),
        script[closer(script, start)] == CLOSE,
        marks(script.take(closer(script, start))).len() > 0,
        marks(script.take(closer(script, start))).last() == start,
{
    lemma_mark_fate(script, start, script.len() as int);
    lemma_whole(script, true);
    lemma_hooked(script, script.len() as int, true);
}

/// Whether a program holds moves and cell changes only.
spec fn plain(program: Seq<Op>) -> bool {
    forall|i: int|
        0 <= i < program.len() ==> (#[trigger] program[i]).is_move() || program[i].is_change()
}

/// The tape and the pointer after one move or cell change, if the move
/// stays on the tape.
spec fn act(op: Op, state: State) -> Option<State> {
    match op {
        Op::MoveLeft(n) => if n > state.head {
            None
        } else {
            Some(State { head: (state.head - n) as nat, ..state })
        },
        Op::MoveRight(n) => if n > MEMORY_SIZE - 1 - state.head {
            None
        } else {
            Some(State { head: state.head + n, ..state })
        },
        Op::Increment(n) => Some(state.store(wrap(state.cell() + n))),
        Op::Decrement(n) => Some(state.store(wrap(state.cell() - n))),
        _ => Some(state),
    }
}

/// The tape and the pointer after the moves and cell changes of a
/// program, taken in order, if every move stays on the tape.
spec fn walk(program: Seq<Op>, state: State) -> Option<State>
    decreases program.len(),
{
    if program.len() == 0 {
        Some(state)
    } else {
        match walk(program.drop_last(), state) {
            Some(middle) => act(program.last(), middle),
            None => None,
        }
    }
}

/// A walk leaves the tape at its length and the pointer on it.
proof fn lemma_walk_valid(program: Seq<Op>, state: State)
    requires
        state.valid(),
    ensures
        walk(program, state) matches Some(end) ==> end.valid() && end.next == state.next,
    decreases program.len(),
{
    if program.len() > 0 {
        lemma_walk_valid(program.drop_last(), state);
    }
}

/// A walk with one more operation is the walk, then that operation.
proof fn lemma_walk_push(program: Seq<Op>, op: Op, state: State)
    ensures
        walk(program.push(op), state) == match walk(program, state) {
            Some(middle) => act(op, middle),
            None => None,
        },
{
    assert(program.push(op).drop_last() =~= program);
}

/// Storing into the cell under the pointer: the last value stays, and
/// storing what the cell holds changes nothing.
proof fn lemma_store(state: State, first: u8, second: u8)
    requires
        state.valid(),
    ensures
        state.store(first).cell() == first,
        state.store(first).store(second) == state.store(second),
        state.store(state.cell()) == state,
        state.store(first).valid(),
{
    assert(state.tape.update(state.head as int, first).update(state.head as int, second)
        =~= state.tape.update(state.head as int, second));
    assert(state.tape.update(state.head as int, state.cell()) =~= state.tape);
}

/// Cells wrap: a change by a sum is the change by its terms, and a change
/// by 256 is none.
proof fn lemma_wrap(cell: u8, delta: int)
    ensures
        wrap(wrap(cell + delta) + 1) == wrap(cell + delta + 1),
        wrap(wrap(cell + delta) - 1) == wrap(cell + delta - 1),
        wrap(cell + 256) == cell,
        wrap(cell - 256) == cell,
        wrap(cell + 0) == cell,
{
}

/// Taking a `<` into a program by folding does to the tape and the
/// pointer what taking it by itself does, where that stays on the tape.
proof fn lemma_walk_fold_left(program: Seq<Op>, state: State)
    requires
        state.valid(),
        program.len() > 0 ==> sound(program.last()),
        walk(program.push(Op::MoveLeft(1)), state) is Some,
    ensures
        walk(fold_left(program), state) == walk(program.push(Op::MoveLeft(1)), state),
{
    lemma_walk_push(program, Op::MoveLeft(1), state);
    if program.len() > 0 {
        let front = program.drop_last();
        assert(program =~= front.push(program.last()));
        lemma_walk_push(front, program.last(), state);
        match program.last() {
            Op::MoveLeft(n) => {
                lemma_walk_push(front, Op::MoveLeft(n + 1), state);
            },
            Op::MoveRight(n) => {
                if n > 1 {
                    lemma_walk_push(front, Op::MoveRight((n - 1) as nat), state);
                }
            },
            _ => {},
        }
    }
}

/// Taking a `>` into a program by folding does to the tape and the
/// pointer what taking it by itself does, where that stays on the tape.
proof fn lemma_walk_fold_right(program: Seq<Op>, state: State)
    requires
        state.valid(),
        program.len() > 0 ==> sound(program.last()),
        walk(program.push(Op::MoveRight(1)), state) is Some,
    ensures
        walk(fold_right(program), state) == walk(program.push(Op::MoveRight(1)), state),
{
    lemma_walk_push(program, Op::MoveRight(1), state);
    if program.len() > 0 {
        let front = program.drop_last();
        assert(program =~= front.push(program.last()));
        lemma_walk_push(front, program.last(), state);
        match program.last() {
            Op::MoveRight(n) => {
                lemma_walk_push(front, Op::MoveRight(n + 1), state);
            },
            Op::MoveLeft(n) => {
                if n > 1 {
                    lemma_walk_push(front, Op::MoveLeft((n - 1) as nat), state);
                }
            },
            _ => {},
        }
    }
}

/// Taking a `+` into a program by folding does to the tape and the
/// pointer what taking it by itself does.
proof fn lemma_walk_fold_up(program: Seq<Op>, state: State)
    requires
        state.valid(),
        program.len() > 0 ==> sound(program.last()),
    ensures
        walk(fold_up(program), state) == walk(program.push(Op::Increment(1)), state),
{
    lemma_walk_push(program, Op::Increment(1), state);
    if program.len() > 0 {
        let front = program.drop_last();
        assert(program =~= front.push(program.last()));
        lemma_walk_push(front, program.last(), state);
        lemma_walk_valid(front, state);
        match program.last() {
            Op::Increment(n) => {
                lemma_walk_push(front, Op::Increment(n + 1), state);
                if let Some(middle) = walk(front, state) {
                    lemma_wrap(middle.cell(), n as int);
                    lemma_store(middle, wrap(middle.cell() + n), wrap(middle.cell() + n + 1));
                }
            },
            Op::Decrement(n) => {
                lemma_walk_push(front, Op::Decrement((n - 1) as nat), state);
                if let Some(middle) = walk(front, state) {
                    lemma_wrap(middle.cell(), -(n as int));
                    lemma_store(middle, wrap(middle.cell() - n), wrap(middle.cell() - n + 1));
                }
            },
            _ => {},
        }
    }
}

/// Taking a `-` into a program by folding does to the tape and the
/// pointer what taking it by itself does.
proof fn lemma_walk_fold_down(program: Seq<Op>, state: State)
    requires
        state.valid(),
        program.len() > 0 ==> sound(program.last()),
    ensures
        walk(fold_down(program), state) == walk(program.push(Op::Decrement(1)), state),
{
    lemma_walk_push(program, Op::Decrement(1), state);
    if program.len() > 0 {
        let front = program.drop_last();
        assert(program =~= front.push(program.last()));
        lemma_walk_push(front, program.last(), state);
        lemma_walk_valid(front, state);
        match program.last() {
            Op::Decrement(n) => {
                lemma_walk_push(front, Op::Decrement(n + 1), state);
                if let Some(middle) = walk(front, state) {
                    lemma_wrap(middle.cell(), -(n as int));
                    lemma_store(middle, wrap(middle.cell() - n), wrap(middle.cell() - n - 1));
                }
            },
            Op::Increment(n) => {
                lemma_walk_push(front, Op::Increment((n - 1) as nat), state);
                if let Some(middle) = walk(front, state) {
                    lemma_wrap(middle.cell(), n as int);
                    lemma_store(middle, wrap(middle.cell() + n), wrap(middle.cell() + n - 1));
                }
            },
            _ => {},
        }
    }
}

/// A walk does not look at the instruction at hand, and leaves it.
proof fn lemma_walk_jump(program: Seq<Op>, state: State, next: nat)
    ensures
        walk(program, state.jump(next)) == match walk(program, state) {
            Some(end) => Some(end.jump(next)),
            None => None,
        },
    decreases program.len(),
{
    if program.len() > 0 {
        lemma_walk_jump(program.drop_last(), state, next);
    }
}

/// A stretch of a script without barriers is scanned to a program of
/// moves and cell changes, with folding and without. The folded program
/// is no longer than the other, and does to the tape and the pointer
/// what the other does, where that stays on the tape.
proof fn lemma_walk_stretch(stretch: Seq<u8>, state: State)
    requires
        clear(stretch, 0, stretch.len() as int),
        state.valid(),
    ensures
        scan(stretch) is Ok,
        spelled(stretch) is Ok,
        plain(scan(stretch)->Ok_0.program),
        plain(spelled(stretch)->Ok_0.program),
        scan(stretch)->Ok_0.program.len() <= spelled(stretch)->Ok_0.program.len(),
        walk(spelled(stretch)->Ok_0.program, state) is Some ==> walk(
            scan(stretch)->Ok_0.program,
            state,
        ) == walk(spelled(stretch)->Ok_0.program, state),
    decreases stretch.len(),
{
    if stretch.len() > 0 {
        let front = stretch.drop_last();
        let token = stretch.last();
        assert(token == stretch[stretch.len() - 1]);
        assert(!barrier(token));
        assert forall|i: int| 0 <= i < front.len() implies !barrier(#[trigger] front[i]) by {
            assert(front[i] == stretch[i]);
        }
        lemma_walk_stretch(front, state);
        lemma_scan_tidy(front);
        let before = scan(front)->Ok_0;
        let after = scan(stretch)->Ok_0;
        let single = spelled(front)->Ok_0.program;
        assert(before.program.len() > 0 ==> sound(before.program.last())) by {
            reveal(tidy);
            if before.program.len() > 0 {
                assert(sound(before.program[before.program.len() - 1]));
            }
        }
        assert(plain(after.program)) by {
            assert forall|i: int| 0 <= i < after.program.len() implies (
            #[trigger] after.program[i]).is_move() || after.program[i].is_change() by {
                if i < before.program.len() - 1 {
                    assert(after.program[i] == before.program[i]);
                }
            }
        }
        assert(plain(spelled(stretch)->Ok_0.program)) by {
            assert forall|i: int| 0 <= i < spelled(stretch)->Ok_0.program.len() implies (
            #[trigger] spelled(stretch)->Ok_0.program[i]).is_move() || spelled(
                stretch,
            )->Ok_0.program[i].is_change() by {
                if i < single.len() {
                    assert(spelled(stretch)->Ok_0.program[i] == single[i]);
                }
            }
        }
        if token == LESS || token == GREATER || token == PLUS || token == MINUS {
            let op = spelled(stretch)->Ok_0.program.last();
            assert(spelled(stretch)->Ok_0.program =~= single.push(op));
            lemma_walk_push(single, op, state);
            lemma_walk_push(before.program, op, state);
            if walk(spelled(stretch)->Ok_0.program, state) is Some {
                if token == LESS {
                    lemma_walk_fold_left(before.program, state);
                } else if token == GREATER {
                    lemma_walk_fold_right(before.program, state);
                } else if token == PLUS {
                    lemma_walk_fold_up(before.program, state);
                } else {
                    lemma_walk_fold_down(before.program, state);
                }
            }
        }
    }
}

/// A stretch of a script without barriers is scanned to a program of
/// moves and cell changes.
proof fn lemma_stretch_plain(stretch: Seq<u8>, fold: bool)
    requires
        clear(stretch, 0, stretch.len() as int),
    ensures
        pass(stretch, fold) is Ok,
        plain(pass(stretch, fold)->Ok_0.program),
{
    lemma_walk_stretch(stretch, State::start());
}

/// In the whole program a stretch of the script without barriers, from
/// behind a barrier up to the next, stands as it is scanned alone.
proof fn lemma_stretch_site(script: Seq<u8>, from: int, to: int, fold: bool)
    requires
        pass(script, fold) is Ok,
        0 <= from <= to <= script.len(),
        clear(script, from, to),
        from == 0 || barrier(script[from - 1]),
        to == script.len() || barrier(script[to]),
    ensures
        pass(script.subrange(from, to), fold) is Ok,
        reach(script, to, fold) == reach(script, from, fold) + pass(
            script.subrange(from, to),
            fold,
        )->Ok_0.program.len(),
        reach(script, to, fold) <= whole(script, fold).len(),
        whole(script, fold).subrange(
            reach(script, from, fold) as int,
            reach(script, to, fold) as int,
        ) == pass(script.subrange(from, to), fold)->Ok_0.program,
{
    lemma_pass_prefix(script, from, fold);
    lemma_pass_prefix(script, to, fold);
    lemma_whole(script, fold);
    if from == 0 {
        assert(script.take(0) =~= Seq::<u8>::empty());
    } else {
        lemma_behind_barrier(script, from - 1, fold);
    }
    lemma_stage_stretch(script, from, to, fold);
    let stretch = script.subrange(from, to);
    assert(clear(stretch, 0, stretch.len() as int)) by {
        assert forall|i: int| 0 <= i < stretch.len() implies !barrier(#[trigger] stretch[i]) by {
            assert(stretch[i] == script[from + i]);
        }
    }
    lemma_stretch_plain(stretch, fold);
    let alone = pass(stretch, fold)->Ok_0.program;
    let low = reach(script, from, fold) as int;
    let high = reach(script, to, fold) as int;
    let here = stage(script, to, fold).program;
    assert(here == stage(script, from, fold).program + alone);
    if to == script.len() {
        assert(whole(script, fold).subrange(low, high) =~= alone);
    } else {
        lemma_pass_prefix(script, to + 1, fold);
        lemma_behind_barrier(script, to, fold);
        let next = stage(script, to + 1, fold).program;
        lemma_stage_keeps(script, to + 1, script.len() as int, fold, high, high);
        assert forall|i: int| low <= i < high implies whole(script, fold)[i] == alone[i - low] by {
            assert(here[i] == alone[i - low]);
            assert(alone[i - low].is_move() || alone[i - low].is_change());
            assert(same(here[i], next[i]));
            lemma_stage_keeps(script, to + 1, script.len() as int, fold, i, high);
        }
        assert(whole(script, fold).subrange(low, high) =~= alone);
    }
}

/// A run that stands before a stretch of moves and cell changes is the
/// walk of that stretch, where the walk stays on the tape; where it does
/// not, the run ends in the failure.
proof fn lemma_run_stretch(program: Seq<Op>, state: State, count: nat)
    requires
        state.valid(),
        state.next + count <= program.len(),
        plain(program.subrange(state.next as int, (state.next + count) as int)),
    ensures
        match walk(program.subrange(state.next as int, (state.next + count) as int), state) {
            Some(end) => run(program, state, count) == end.jump(state.next + count),
            None => answer(program, run(program, state, count)) is Err,
        },
    decreases count,
{
    let from = state.next as int;
    if count == 0 {
        assert(program.subrange(from, from + 0) =~= Seq::<Op>::empty());
    } else {
        let before = (count - 1) as nat;
        let stretch = program.subrange(from, from + count);
        let shorter = program.subrange(from, from + before);
        assert(stretch.drop_last() =~= shorter);
        assert(stretch.last() == program[from + before]);
        assert(plain(shorter)) by {
            assert forall|i: int| 0 <= i < shorter.len() implies (
            #[trigger] shorter[i]).is_move() || shorter[i].is_change() by {
                assert(shorter[i] == stretch[i]);
            }
        }
        lemma_run_stretch(program, state, before);
        lemma_run_split(program, state, before, 1);
        lemma_walk_valid(shorter, state);
        let reached = run(program, state, before);
        let op = program[from + before];
        assert(op == stretch[before as int]);
        assert(op.is_move() || op.is_change());
        match walk(shorter, state) {
            Some(middle) => {
                assert(reached == middle.jump(state.next + before));
                if pause(program, reached) is None {
                    assert(run(program, reached, 1) == run(program, step(program, reached), 0));
                    assert(act(op, middle) is Some);
                    assert(act(op, middle)->Some_0.jump(state.next + count) == step(
                        program,
                        reached,
                    ));
                } else {
                    assert(act(op, middle) is None);
                    assert(run(program, reached, 1) == reached);
                }
            },
            None => {
                assert(run(program, reached, 1) == reached);
            },
        }
    }
}

/// A run that has ended in a failure stays there.
proof fn lemma_run_failed(program: Seq<Op>, state: State, budget: nat)
    requires
        answer(program, state) is Err,
    ensures
        run(program, state, budget) == state,
{
}

/// The next place in a script, from `at` on, where a barrier stands, or
/// the end of the script.
spec fn ahead(script: Seq<u8>, at: int) -> int
    decreases script.len() - at,
{
    if at >= script.len() || barrier(script[at]) {
        at
    } else {
        ahead(script, at + 1)
    }
}

/// Up to the next barrier there is none.
proof fn lemma_ahead(script: Seq<u8>, at: int)
    requires
        0 <= at <= script.len(),
    ensures
        at <= ahead(script, at) <= script.len(),
        clear(script, at, ahead(script, at)),
        ahead(script, at) == script.len() || barrier(script[ahead(script, at)]),
    decreases script.len() - at,
{
    if at < script.len() && !barrier(script[at]) {
        lemma_ahead(script, at + 1);
    }
}

/// Whether `at` is a place in a script between two bytes where nothing
/// is being folded: its start, its end, or a place before or behind a
/// barrier.
pub open spec fn seam(script: Seq<u8>, at: int) -> bool {
    0 <= at <= script.len() && (at == 0 || at == script.len() || barrier(script[at]) || barrier(
        script[at - 1],
    ))
}

/// Whether a run of the program that takes every token of a script by
/// itself and a run of the program that the script compiles to stand at
/// the same place: the tapes and the pointers are the same, and the
/// instructions at hand are those that the two programs had reached at
/// one seam of the script.
pub open spec fn aligned(script: Seq<u8>, single: State, folded: State) -> bool {
    &&& single.tape == folded.tape
    &&& single.head == folded.head
    &&& exists|at: int|
        seam(script, at) && single.next == spelled(#[trigger] script.take(at))->Ok_0.program.len()
            && folded.next == scan(script.take(at))->Ok_0.program.len()
}

/// Whether a run with this budget comes to where the caller is asked for
/// something other than more budget: to the end of the program, to a read
/// or to a write.
pub open spec fn settles(program: Seq<Op>, state: State, budget: nat) -> bool {
    answer(program, run(program, state, budget)) matches Ok(action) && action != Action::Resume
}

/// Folding is sound from every seam: what `lemma_folding_sound` states,
/// with the seam named at which the two runs stand.
proof fn lemma_simulate(
    script: Seq<u8>,
    at: int,
    single: State,
    folded: State,
    budget: nat,
    more: nat,
)
    requires
        compile(script) is Ok,
        seam(script, at),
        single.valid(),
        single.tape == folded.tape,
        single.head == folded.head,
        single.next == reach(script, at, false),
        folded.next == reach(script, at, true),
        budget <= more,
        settles(whole(script, false), single, budget),
    ensures
        aligned(
            script,
            run(whole(script, false), single, budget),
            run(whole(script, true), folded, more),
        ),
        answer(whole(script, true), run(whole(script, true), folded, more)) == answer(
            whole(script, false),
            run(whole(script, false), single, budget),
        ),
    decreases budget, script.len() - at,
{
    let literal = whole(script, false);
    let program = whole(script, true);
    lemma_whole(script, true);
    lemma_whole(script, false);
    lemma_pass_alike(script, script.len() as int);
    if at == script.len() {
        assert(script.take(at) =~= script);
    } else if barrier(script[at]) {
        let token = script[at];
        lemma_barrier_site(script, at, true);
        lemma_barrier_site(script, at, false);
        if token == COMMA || token == DOT {
        } else {
            // the place of the bracket, and that of its counterpart
            let start = if token == OPEN {
                at
            } else {
                marks(script.take(at)).last()
            };
            let end = if token == OPEN {
                closer(script, at)
            } else {
                at
            };
            if token == OPEN {
                lemma_closer(script, at);
            }
            lemma_pair_site(script, end, true);
            lemma_pair_site(script, end, false);
            lemma_barrier_site(script, start, true);
            lemma_barrier_site(script, start, false);
            lemma_barrier_site(script, end, true);
            lemma_barrier_site(script, end, false);
            assert(pause(literal, single) is None);
            assert(pause(program, folded) is None);
            assert(budget > 0);
            let zero = single.cell() == 0;
            let behind = if zero {
                end + 1
            } else {
                start + 1
            };
            assert(seam(script, behind));
            assert(step(literal, single).next == reach(script, behind, false));
            assert(step(program, folded).next == reach(script, behind, true));
            lemma_simulate(
                script,
                behind,
                step(literal, single),
                step(program, folded),
                (budget - 1) as nat,
                (more - 1) as nat,
            );
        }
    } else {
        let to = ahead(script, at);
        lemma_ahead(script, at);
        lemma_stretch_site(script, at, to, true);
        lemma_stretch_site(script, at, to, false);
        let stretch = script.subrange(at, to);
        assert(clear(stretch, 0, stretch.len() as int)) by {
            assert forall|i: int| 0 <= i < stretch.len() implies !barrier(#[trigger] stretch[i]) by {
                assert(stretch[i] == script[at + i]);
            }
        }
        lemma_walk_stretch(stretch, single);
        let long = spelled(stretch)->Ok_0.program;
        let short = scan(stretch)->Ok_0.program;
        if budget < long.len() {
            // the budget ends in the stretch
            let part = literal.subrange(single.next as int, (single.next + budget) as int);
            assert(plain(part)) by {
                assert forall|i: int| 0 <= i < part.len() implies (#[trigger] part[i]).is_move()
                    || part[i].is_change() by {
                    assert(part[i] == long[i]);
                }
            }
            lemma_run_stretch(literal, single, budget);
            lemma_walk_valid(part, single);
            assert(literal[(single.next + budget) as int] == long[budget as int]);
            assert(false);
        } else {
            lemma_run_stretch(literal, single, long.len());
            lemma_run_split(literal, single, long.len(), (budget - long.len()) as nat);
            let after = run(literal, single, long.len());
            if walk(long, single) is None {
                lemma_run_failed(literal, after, (budget - long.len()) as nat);
                assert(false);
            }
            let end = walk(long, single)->Some_0;
            lemma_walk_valid(long, single);
            lemma_walk_jump(short, single, folded.next);
            assert(single.jump(folded.next) == folded);
            lemma_run_stretch(program, folded, short.len());
            lemma_run_split(program, folded, short.len(), (more - short.len()) as nat);
            lemma_simulate(
                script,
                to,
                after,
                run(program, folded, short.len()),
                (budget - long.len()) as nat,
                (more - short.len()) as nat,
            );
        }
    }
}

/// Both runs start aligned: on fresh tapes, at the first instruction.
pub proof fn lemma_aligned_start(script: Seq<u8>)
    ensures
        aligned(script, State::start(), State::start()),
{
    assert(script.take(0) =~= Seq::<u8>::empty());
    assert(seam(script, 0));
}

/// Folding is sound. Take a script that compiles, the program that takes
/// every token of it by itself, and the program that it compiles to, and
/// let a run of each stand at the same place. Where the run of the first
/// comes to its end, to a read or to a write within its budget, and so
/// without leaving the tape, the run of the second comes there too with
/// no more budget than that: at the same place, with the same tape and
/// pointer, and asking the caller for the same.
pub proof fn lemma_folding_sound(
    script: Seq<u8>,
    single: State,
    folded: State,
    budget: nat,
    more: nat,
)
    requires
        compile(script) is Ok,
        single.valid(),
        aligned(script, single, folded),
        budget <= more,
        settles(literal(script)->Ok_0, single, budget),
    ensures
        literal(script) is Ok,
        aligned(
            script,
            run(literal(script)->Ok_0, single, budget),
            run(compile(script)->Ok_0, folded, more),
        ),
        answer(compile(script)->Ok_0, run(compile(script)->Ok_0, folded, more)) == answer(
            literal(script)->Ok_0,
            run(literal(script)->Ok_0, single, budget),
        ),
{
    lemma_whole(script, true);
    lemma_whole(script, false);
    lemma_pass_alike(script, script.len() as int);
    let at = choose|at: int|
        seam(script, at) && single.next == spelled(#[trigger] script.take(at))->Ok_0.program.len()
            && folded.next == scan(script.take(at))->Ok_0.program.len();
    lemma_simulate(script, at, single, folded, budget, more);
}

/// Folding is sound from the start. Where the tokens of a script that
/// compiles, taken one by one on a fresh tape, come to the end, to a read
/// or to a write within a budget, the program that the script compiles to
/// comes there within the same budget, with the same tape and pointer,
/// and asks the caller for the same.
pub proof fn lemma_folding_sound_at_start(script: Seq<u8>, budget: nat)
    requires
        compile(script) is Ok,
        settles(literal(script)->Ok_0, State::start(), budget),
    ensures
        literal(script) is Ok,
        run(compile(script)->Ok_0, State::start(), budget).tape == run(
            literal(script)->Ok_0,
            State::start(),
            budget,
        ).tape,
        run(compile(script)->Ok_0, State::start(), budget).head == run(
            literal(script)->Ok_0,
            State::start(),
            budget,
        ).head,
        answer(compile(script)->Ok_0, run(compile(script)->Ok_0, State::start(), budget))
            == answer(literal(script)->Ok_0, run(literal(script)->Ok_0, State::start(), budget)),
{
    lemma_aligned_start(script);
    lemma_folding_sound(script, State::start(), State::start(), budget, budget);
}

/// Two runs that stand aligned at a read or at a write stand before the
/// barrier that the read or the write was compiled from.
proof fn lemma_aligned_barrier(script: Seq<u8>, at: int, single: State)
    requires
        compile(script) is Ok,
        seam(script, at),
        single.valid(),
        single.next == reach(script, at, false),
        answer(whole(script, false), single) matches Ok(action) && (action is Read
            || action is Write),
    ensures
        at <= ahead(script, at) < script.len(),
        script[ahead(script, at)] == COMMA || script[ahead(script, at)] == DOT,
        reach(script, ahead(script, at), false) == reach(script, at, false),
        reach(script, ahead(script, at), true) == reach(script, at, true),
{
    let to = ahead(script, at);
    lemma_whole(script, true);
    lemma_whole(script, false);
    lemma_pass_alike(script, script.len() as int);
    lemma_ahead(script, at);
    if at == script.len() {
        assert(script.take(at) =~= script);
    } else if barrier(script[at]) {
        lemma_barrier_site(script, at, false);
    } else {
        lemma_stretch_site(script, at, to, true);
        lemma_stretch_site(script, at, to, false);
        let stretch = script.subrange(at, to);
        assert(clear(stretch, 0, stretch.len() as int)) by {
            assert forall|i: int| 0 <= i < stretch.len() implies !barrier(#[trigger] stretch[i]) by {
                assert(stretch[i] == script[at + i]);
            }
        }
        lemma_walk_stretch(stretch, single);
        let long = spelled(stretch)->Ok_0.program;
        if long.len() > 0 {
            assert(whole(script, false)[single.next as int] == long[0]);
            assert(long[0].is_move() || long[0].is_change());
        }
        if to == script.len() {
            assert(script.take(to) =~= script);
        } else {
            lemma_barrier_site(script, to, false);
        }
    }
}

/// What the caller hands back keeps two aligned runs aligned: after the
/// read that both wait for, with the same byte or the same end of the
/// input, they stand aligned behind it.
pub proof fn lemma_aligned_fed(script: Seq<u8>, single: State, folded: State, input: Option<u8>)
    requires
        compile(script) is Ok,
        single.valid(),
        aligned(script, single, folded),
        answer(literal(script)->Ok_0, single) == Ok::<Action, RuntimeError>(Action::Read),
    ensures
        answer(compile(script)->Ok_0, folded) == Ok::<Action, RuntimeError>(Action::Read),
        aligned(
            script,
            fed(literal(script)->Ok_0, single, input),
            fed(compile(script)->Ok_0, folded, input),
        ),
{
    lemma_whole(script, true);
    lemma_whole(script, false);
    lemma_pass_alike(script, script.len() as int);
    let at = choose|at: int|
        seam(script, at) && single.next == spelled(#[trigger] script.take(at))->Ok_0.program.len()
            && folded.next == scan(script.take(at))->Ok_0.program.len();
    lemma_aligned_barrier(script, at, single);
    let to = ahead(script, at);
    lemma_barrier_site(script, to, true);
    lemma_barrier_site(script, to, false);
    assert(seam(script, to + 1));
    assert(fed(literal(script)->Ok_0, single, input).next == spelled(
        script.take(to + 1),
    )->Ok_0.program.len());
}

/// What the caller hands back keeps two aligned runs aligned: after the
/// write that both wait for, they stand aligned behind it.
pub proof fn lemma_aligned_put(script: Seq<u8>, single: State, folded: State)
    requires
        compile(script) is Ok,
        single.valid(),
        aligned(script, single, folded),
        answer(literal(script)->Ok_0, single) matches Ok(action) && action is Write,
    ensures
        answer(compile(script)->Ok_0, folded) == answer(literal(script)->Ok_0, single),
        aligned(script, put(literal(script)->Ok_0, single), put(compile(script)->Ok_0, folded)),
{
    lemma_whole(script, true);
    lemma_whole(script, false);
    lemma_pass_alike(script, script.len() as int);
    let at = choose|at: int|
        seam(script, at) && single.next == spelled(#[trigger] script.take(at))->Ok_0.program.len()
            && folded.next == scan(script.take(at))->Ok_0.program.len();
    lemma_aligned_barrier(script, at, single);
    let to = ahead(script, at);
    lemma_barrier_site(script, to, true);
    lemma_barrier_site(script, to, false);
    assert(seam(script, to + 1));
    assert(put(literal(script)->Ok_0, single).next == spelled(script.take(to + 1))->Ok_0.program.len());
}

} // verus!
