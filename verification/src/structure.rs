//! The shape of a program that the compiler has emitted, in whole or in
//! part: counts are never zero, no two neighbours could have been folded
//! into one, and the loop brackets are matched and nested.

use vstd::prelude::*;
use crate::instruction::{Op, CLOSE, OPEN};
use crate::syntax::{compile, fold_down, fold_left, fold_right, fold_up, scan, Opening, Scan};

verus! {

/// Whether the count of an operation is one that the compiler keeps: a
/// move by at least one cell, a cell change by 1 to 255.
pub open spec fn sound(op: Op) -> bool {
    match op {
        Op::MoveLeft(n) => n >= 1,
        Op::MoveRight(n) => n >= 1,
        Op::Increment(n) => 1 <= n <= 255,
        Op::Decrement(n) => 1 <= n <= 255,
        _ => true,
    }
}

/// Whether two operations would have been folded had the second followed
/// the first: two moves, or two cell changes.
pub open spec fn clash(first: Op, second: Op) -> bool {
    (first.is_move() && second.is_move()) || (first.is_change() && second.is_change())
}

/// Whether the loop that starts at `index` is among the open ones.
pub open spec fn pending(open: Seq<Opening>, index: int) -> bool {
    exists|k: int| 0 <= k < open.len() && (#[trigger] open[k]).index == index
}

/// Whether `program`, with the loops in `open` still waiting for their
/// end, is one that the compiler can have emitted.
#[verifier::opaque]
pub open spec fn tidy(program: Seq<Op>, open: Seq<Opening>) -> bool {
    // counts are never zero, and cell changes stay below 256
    &&& forall|i: int| 0 <= i < program.len() ==> sound(#[trigger] program[i])
    // no two neighbours could have been folded
    &&& forall|i: int|
        0 <= i && i + 1 < program.len() ==> !clash(#[trigger] program[i], program[i + 1])
    // the open loops are placeholders
    &&& forall|k: int|
        0 <= k < open.len() ==> (#[trigger] open[k]).index < program.len()
            && program[open[k].index as int] == Op::StartLoop(0)
    // and they are kept outermost first
    &&& forall|k: int, l: int|
        0 <= k < l < open.len() ==> (#[trigger] open[k]).index < (#[trigger] open[l]).index
    // a loop start is either open, or knows its end, which lies after it
    &&& forall|i: int|
        0 <= i < program.len() && (#[trigger] program[i]) is StartLoop ==> if program[i]->StartLoop_0
            == 0 {
            pending(open, i)
        } else {
            i < program[i]->StartLoop_0 < program.len() && program[program[i]->StartLoop_0 as int]
                == Op::EndLoop(i as nat)
        }
    // a loop end knows its start, which lies before it
    &&& forall|j: int|
        0 <= j < program.len() && (#[trigger] program[j]) is EndLoop ==> program[j]->EndLoop_0 < j
            && program[program[j]->EndLoop_0 as int] == Op::StartLoop(j as nat)
    // a loop that starts inside another ends inside it
    &&& forall|a: int, b: int|
        0 <= a < b < program.len() && (#[trigger] program[a]) is StartLoop && (
        #[trigger] program[b]) is StartLoop && b < program[a]->StartLoop_0
            ==> 0 < program[b]->StartLoop_0 < program[a]->StartLoop_0
    // a loop that started before an open one and has ended, ended before it
    &&& forall|a: int, k: int|
        0 <= a < program.len() && 0 <= k < open.len() && (#[trigger] program[a]) is StartLoop
            && a < (#[trigger] open[k]).index ==> program[a]->StartLoop_0 < open[k].index
}

/// Whether `program` is a complete compiled program: tidy, with no loop
/// left open.
pub open spec fn well_formed(program: Seq<Op>) -> bool {
    tidy(program, Seq::<Opening>::empty())
}

/// An operation that is no bracket can be appended where it does not clash
/// with its neighbour.
pub proof fn lemma_push_plain(program: Seq<Op>, open: Seq<Opening>, op: Op)
    requires
        tidy(program, open),
        sound(op),
        !(op is StartLoop),
        !(op is EndLoop),
        program.len() > 0 ==> !clash(program.last(), op),
    ensures
        tidy(program.push(op), open),
{
    reveal(tidy);
    let after = program.push(op);
    assert forall|i: int| 0 <= i && i + 1 < after.len() implies !clash(
        #[trigger] after[i],
        after[i + 1],
    ) by {
        if i + 1 < program.len() {
            assert(after[i] == program[i]);
        }
    }
    assert forall|i: int| 0 <= i < after.len() && (#[trigger] after[i]) is StartLoop implies if after[i]->StartLoop_0
        == 0 {
        pending(open, i)
    } else {
        i < after[i]->StartLoop_0 < after.len() && after[after[i]->StartLoop_0 as int]
            == Op::EndLoop(i as nat)
    } by {
        assert(after[i] == program[i]);
    }
    assert forall|j: int| 0 <= j < after.len() && (#[trigger] after[j]) is EndLoop implies after[j]->EndLoop_0
        < j && after[after[j]->EndLoop_0 as int] == Op::StartLoop(j as nat) by {
        assert(after[j] == program[j]);
    }
    assert forall|a: int, b: int|
        0 <= a < b < after.len() && (#[trigger] after[a]) is StartLoop && (
        #[trigger] after[b]) is StartLoop && b < after[a]->StartLoop_0 implies 0
        < after[b]->StartLoop_0 < after[a]->StartLoop_0 by {
        assert(after[a] == program[a]);
        assert(after[b] == program[b]);
    }
    assert forall|a: int, k: int|
        0 <= a < after.len() && 0 <= k < open.len() && (#[trigger] after[a]) is StartLoop && a < (
        #[trigger] open[k]).index implies after[a]->StartLoop_0 < open[k].index by {
        assert(after[a] == program[a]);
    }
}

/// A last operation that is no bracket can be taken away.
pub proof fn lemma_drop_plain(program: Seq<Op>, open: Seq<Opening>)
    requires
        tidy(program, open),
        program.len() > 0,
        !(program.last() is StartLoop),
        !(program.last() is EndLoop),
    ensures
        tidy(program.drop_last(), open),
{
    reveal(tidy);
    let after = program.drop_last();
    assert forall|i: int| 0 <= i && i + 1 < after.len() implies !clash(
        #[trigger] after[i],
        after[i + 1],
    ) by {
        assert(after[i] == program[i]);
    }
    assert forall|i: int| 0 <= i < after.len() && (#[trigger] after[i]) is StartLoop implies if after[i]->StartLoop_0
        == 0 {
        pending(open, i)
    } else {
        i < after[i]->StartLoop_0 < after.len() && after[after[i]->StartLoop_0 as int]
            == Op::EndLoop(i as nat)
    } by {
        assert(after[i] == program[i]);
    }
    assert forall|j: int| 0 <= j < after.len() && (#[trigger] after[j]) is EndLoop implies after[j]->EndLoop_0
        < j && after[after[j]->EndLoop_0 as int] == Op::StartLoop(j as nat) by {
        assert(after[j] == program[j]);
    }
    assert forall|a: int, b: int|
        0 <= a < b < after.len() && (#[trigger] after[a]) is StartLoop && (
        #[trigger] after[b]) is StartLoop && b < after[a]->StartLoop_0 implies 0
        < after[b]->StartLoop_0 < after[a]->StartLoop_0 by {
        assert(after[a] == program[a]);
        assert(after[b] == program[b]);
    }
    assert forall|a: int, k: int|
        0 <= a < after.len() && 0 <= k < open.len() && (#[trigger] after[a]) is StartLoop && a < (
        #[trigger] open[k]).index implies after[a]->StartLoop_0 < open[k].index by {
        assert(after[a] == program[a]);
    }
    assert forall|k: int| 0 <= k < open.len() implies (#[trigger] open[k]).index < after.len()
        && after[open[k].index as int] == Op::StartLoop(0) by {
        assert(program[open[k].index as int] == Op::StartLoop(0));
    }
}

/// The count of a last move or cell change can be replaced by another
/// sound count.
pub proof fn lemma_recount_plain(program: Seq<Op>, open: Seq<Opening>, op: Op)
    requires
        tidy(program, open),
        program.len() > 0,
        sound(op),
        op.is_move() || op.is_change(),
        op.is_move() == program.last().is_move(),
        op.is_change() == program.last().is_change(),
    ensures
        tidy(program.drop_last().push(op), open),
{
    reveal(tidy);
    lemma_drop_plain(program, open);
    let rest = program.drop_last();
    if rest.len() > 0 {
        assert(rest.last() == program[program.len() - 2]);
        assert(!clash(program[program.len() - 2], program[program.len() - 2 + 1]));
    }
    lemma_push_plain(rest, open, op);
}

/// Folding a move or a cell change into a tidy program, and appending a
/// read or a write to it, leaves it tidy.
pub proof fn lemma_fold_tidy(program: Seq<Op>, open: Seq<Opening>)
    requires
        tidy(program, open),
    ensures
        tidy(fold_left(program), open),
        tidy(fold_right(program), open),
        tidy(fold_up(program), open),
        tidy(fold_down(program), open),
        tidy(program.push(Op::Read), open),
        tidy(program.push(Op::Write), open),
{
    reveal(tidy);
    lemma_push_plain(program, open, Op::Read);
    lemma_push_plain(program, open, Op::Write);
    if program.len() == 0 {
        lemma_push_plain(program, open, Op::MoveLeft(1));
        lemma_push_plain(program, open, Op::MoveRight(1));
        lemma_push_plain(program, open, Op::Increment(1));
        lemma_push_plain(program, open, Op::Decrement(1));
    } else {
        let last = program.last();
        assert(sound(program[program.len() - 1]));
        match last {
            Op::MoveLeft(n) => {
                lemma_recount_plain(program, open, Op::MoveLeft(n + 1));
                if n <= 1 {
                    lemma_drop_plain(program, open);
                } else {
                    lemma_recount_plain(program, open, Op::MoveLeft((n - 1) as nat));
                }
                lemma_push_plain(program, open, Op::Increment(1));
                lemma_push_plain(program, open, Op::Decrement(1));
            },
            Op::MoveRight(n) => {
                lemma_recount_plain(program, open, Op::MoveRight(n + 1));
                if n <= 1 {
                    lemma_drop_plain(program, open);
                } else {
                    lemma_recount_plain(program, open, Op::MoveRight((n - 1) as nat));
                }
                lemma_push_plain(program, open, Op::Increment(1));
                lemma_push_plain(program, open, Op::Decrement(1));
            },
            Op::Increment(n) => {
                if n + 1 >= 256 {
                    lemma_drop_plain(program, open);
                } else {
                    lemma_recount_plain(program, open, Op::Increment(n + 1));
                }
                if n <= 1 {
                    lemma_drop_plain(program, open);
                } else {
                    lemma_recount_plain(program, open, Op::Increment((n - 1) as nat));
                }
                lemma_push_plain(program, open, Op::MoveLeft(1));
                lemma_push_plain(program, open, Op::MoveRight(1));
            },
            Op::Decrement(n) => {
                if n + 1 >= 256 {
                    lemma_drop_plain(program, open);
                } else {
                    lemma_recount_plain(program, open, Op::Decrement(n + 1));
                }
                if n <= 1 {
                    lemma_drop_plain(program, open);
                } else {
                    lemma_recount_plain(program, open, Op::Decrement((n - 1) as nat));
                }
                lemma_push_plain(program, open, Op::MoveLeft(1));
                lemma_push_plain(program, open, Op::MoveRight(1));
            },
            _ => {
                lemma_push_plain(program, open, Op::MoveLeft(1));
                lemma_push_plain(program, open, Op::MoveRight(1));
                lemma_push_plain(program, open, Op::Increment(1));
                lemma_push_plain(program, open, Op::Decrement(1));
            },
        }
    }
}

/// Opening a loop leaves the state tidy.
pub proof fn lemma_opened_tidy(state: Scan)
    requires
        tidy(state.program, state.open),
    ensures
        tidy(state.opened().program, state.opened().open),
{
    reveal(tidy);
    let program = state.program;
    let open = state.open;
    let after = state.opened().program;
    let wait = state.opened().open;
    let top = open.len() as int;
    assert(wait[top].index == program.len());
    assert forall|i: int| 0 <= i && i + 1 < after.len() implies !clash(
        #[trigger] after[i],
        after[i + 1],
    ) by {
        if i + 1 < program.len() {
            assert(after[i] == program[i]);
        }
    }
    assert forall|k: int| 0 <= k < wait.len() implies (#[trigger] wait[k]).index < after.len()
        && after[wait[k].index as int] == Op::StartLoop(0) by {
        if k < top {
            assert(wait[k] == open[k]);
        }
    }
    assert forall|k: int, l: int| 0 <= k < l < wait.len() implies (#[trigger] wait[k]).index < (
    #[trigger] wait[l]).index by {
        assert(wait[k] == open[k]);
        if l < top {
            assert(wait[l] == open[l]);
        }
    }
    assert forall|i: int| 0 <= i < after.len() && (#[trigger] after[i]) is StartLoop implies if after[i]->StartLoop_0
        == 0 {
        pending(wait, i)
    } else {
        i < after[i]->StartLoop_0 < after.len() && after[after[i]->StartLoop_0 as int]
            == Op::EndLoop(i as nat)
    } by {
        if i < program.len() {
            assert(after[i] == program[i]);
            if program[i]->StartLoop_0 == 0 {
                let k = choose|k: int| 0 <= k < open.len() && (#[trigger] open[k]).index == i;
                assert(wait[k] == open[k]);
            }
        } else {
            assert(wait[top].index == i);
        }
    }
    assert forall|j: int| 0 <= j < after.len() && (#[trigger] after[j]) is EndLoop implies after[j]->EndLoop_0
        < j && after[after[j]->EndLoop_0 as int] == Op::StartLoop(j as nat) by {
        assert(after[j] == program[j]);
    }
    assert forall|a: int, b: int|
        0 <= a < b < after.len() && (#[trigger] after[a]) is StartLoop && (
        #[trigger] after[b]) is StartLoop && b < after[a]->StartLoop_0 implies 0
        < after[b]->StartLoop_0 < after[a]->StartLoop_0 by {
        assert(after[a] == program[a]);
        if b < program.len() {
            assert(after[b] == program[b]);
        }
    }
    assert forall|a: int, k: int|
        0 <= a < after.len() && 0 <= k < wait.len() && (#[trigger] after[a]) is StartLoop && a < (
        #[trigger] wait[k]).index implies after[a]->StartLoop_0 < wait[k].index by {
        assert(after[a] == program[a]);
        if k < top {
            assert(wait[k] == open[k]);
        }
    }
}

/// Closing the innermost open loop leaves the state tidy.
pub proof fn lemma_closed_tidy(state: Scan)
    requires
        tidy(state.program, state.open),
        state.open.len() > 0,
    ensures
        tidy(state.closed().program, state.closed().open),
{
    reveal(tidy);
    let program = state.program;
    let open = state.open;
    let after = state.closed().program;
    let wait = state.closed().open;
    let top = open.len() - 1;
    let start = open[top].index as int;
    let end = program.len() as int;
    assert(program[start] == Op::StartLoop(0));
    assert(after[end] == Op::EndLoop(start as nat));
    assert(after[start] == Op::StartLoop(end as nat));
    assert forall|i: int| 0 <= i < end && i != start implies after[i] == program[i] by {}
    assert forall|k: int| 0 <= k < wait.len() implies (#[trigger] wait[k]) == open[k]
        && wait[k].index < start by {
        assert(open[k].index < open[top].index);
    }
    assert forall|i: int| 0 <= i < after.len() implies sound(#[trigger] after[i]) by {
        if i < end && i != start {
            assert(after[i] == program[i]);
        }
    }
    assert forall|i: int| 0 <= i && i + 1 < after.len() implies !clash(
        #[trigger] after[i],
        after[i + 1],
    ) by {
        if i + 1 < end {
            assert(!clash(program[i], program[i + 1]));
            assert(program[start].is_move() == after[start].is_move());
        }
    }
    assert forall|k: int| 0 <= k < wait.len() implies (#[trigger] wait[k]).index < after.len()
        && after[wait[k].index as int] == Op::StartLoop(0) by {
        assert(wait[k] == open[k]);
        assert(after[open[k].index as int] == program[open[k].index as int]);
    }
    assert forall|k: int, l: int| 0 <= k < l < wait.len() implies (#[trigger] wait[k]).index < (
    #[trigger] wait[l]).index by {
        assert(wait[k] == open[k]);
        assert(wait[l] == open[l]);
    }
    assert forall|i: int| 0 <= i < after.len() && (#[trigger] after[i]) is StartLoop implies if after[i]->StartLoop_0
        == 0 {
        pending(wait, i)
    } else {
        i < after[i]->StartLoop_0 < after.len() && after[after[i]->StartLoop_0 as int]
            == Op::EndLoop(i as nat)
    } by {
        if i != start {
            assert(after[i] == program[i]);
            if program[i]->StartLoop_0 == 0 {
                let k = choose|k: int| 0 <= k < open.len() && (#[trigger] open[k]).index == i;
                assert(k != top);
                assert(wait[k] == open[k]);
            } else {
                let j = program[i]->StartLoop_0 as int;
                assert(program[j] == Op::EndLoop(i as nat));
                assert(j != start);
                assert(after[j] == program[j]);
            }
        }
    }
    assert forall|j: int| 0 <= j < after.len() && (#[trigger] after[j]) is EndLoop implies after[j]->EndLoop_0
        < j && after[after[j]->EndLoop_0 as int] == Op::StartLoop(j as nat) by {
        if j < end {
            assert(after[j] == program[j]);
            let i = program[j]->EndLoop_0 as int;
            assert(program[i] == Op::StartLoop(j as nat));
            assert(i != start);
            assert(after[i] == program[i]);
        }
    }
    assert forall|a: int, b: int|
        0 <= a < b < after.len() && (#[trigger] after[a]) is StartLoop && (
        #[trigger] after[b]) is StartLoop && b < after[a]->StartLoop_0 implies 0
        < after[b]->StartLoop_0 < after[a]->StartLoop_0 by {
        if a == start {
            // whatever started after the loop that now ends has ended
            assert(after[b] == program[b]);
            assert(program[b] is StartLoop);
            if program[b]->StartLoop_0 == 0 {
                let k = choose|k: int| 0 <= k < open.len() && (#[trigger] open[k]).index == b;
                if k < top {
                    assert(open[k].index < open[top].index);
                }
            }
        } else if b == start {
            assert(after[a] == program[a]);
            assert(program[a] is StartLoop);
            assert(a < open[top].index);
            assert(program[a]->StartLoop_0 < open[top].index);
        } else {
            assert(after[a] == program[a]);
            assert(after[b] == program[b]);
        }
    }
    assert forall|a: int, k: int|
        0 <= a < after.len() && 0 <= k < wait.len() && (#[trigger] after[a]) is StartLoop && a < (
        #[trigger] wait[k]).index implies after[a]->StartLoop_0 < wait[k].index by {
        assert(wait[k] == open[k]);
        assert(open[k].index < open[top].index);
        assert(a != start);
        assert(after[a] == program[a]);
    }
}

/// One more byte of the script leaves a tidy state tidy.
pub proof fn lemma_consume_tidy(state: Scan, token: u8)
    requires
        tidy(state.program, state.open),
    ensures
        state.consume(token) matches Ok(next) ==> tidy(next.program, next.open),
{
    lemma_fold_tidy(state.program, state.open);
    if token == OPEN {
        lemma_opened_tidy(state);
    } else if token == CLOSE && state.open.len() > 0 {
        lemma_closed_tidy(state);
    }
}

/// Every state that the scan of a script reaches is tidy.
pub proof fn lemma_scan_tidy(script: Seq<u8>)
    ensures
        scan(script) matches Ok(state) ==> tidy(state.program, state.open),
    decreases script.len(),
{
    reveal(tidy);
    if script.len() > 0 {
        lemma_scan_tidy(script.drop_last());
        if let Ok(state) = scan(script.drop_last()) {
            lemma_consume_tidy(state, script.last());
        }
    }
}

/// Whatever a script compiles to is well formed.
pub proof fn lemma_compile_well_formed(script: Seq<u8>)
    ensures
        compile(script) matches Ok(program) ==> well_formed(program),
{
    lemma_scan_tidy(script);
    if let Ok(state) = scan(script) {
        if state.open.len() == 0 {
            assert(state.open =~= Seq::<Opening>::empty());
        }
    }
}

/// Whether a program is no longer than `limit` and holds no count above
/// it.
pub open spec fn within(program: Seq<Op>, limit: nat) -> bool {
    &&& program.len() <= limit
    &&& forall|i: int| 0 <= i < program.len() ==> (#[trigger] program[i]).repeat() <= limit
}

/// A byte makes a program longer by at most one instruction, and a count
/// larger by at most one.
pub proof fn lemma_consume_within(state: Scan, token: u8, limit: nat)
    requires
        within(state.program, limit),
        state.open.len() > 0 ==> state.open.last().index < state.program.len(),
    ensures
        state.consume(token) matches Ok(next) ==> within(next.program, limit + 1),
{
    if let Ok(next) = state.consume(token) {
        let program = state.program;
        let after = next.program;
        assert forall|i: int| 0 <= i < after.len() implies (#[trigger] after[i]).repeat() <= limit
            + 1 by {
            if i < program.len() {
                assert(program[i].repeat() <= limit);
            }
            if program.len() > 0 {
                assert(program[program.len() - 1].repeat() <= limit);
            }
        }
    }
}

/// The scan of a script emits no more instructions than it has read
/// bytes, and no count above their number.
pub proof fn lemma_scan_within(script: Seq<u8>)
    ensures
        scan(script) matches Ok(state) ==> within(state.program, script.len()),
    decreases script.len(),
{
    reveal(tidy);
    if script.len() > 0 {
        lemma_scan_within(script.drop_last());
        lemma_scan_tidy(script.drop_last());
        if let Ok(state) = scan(script.drop_last()) {
            if state.open.len() > 0 {
                assert(state.open[state.open.len() - 1].index < state.program.len());
            }
            lemma_consume_within(state, script.last(), script.drop_last().len());
        }
    }
}

/// In a well-formed program every loop start knows an end that lies after
/// it, and every loop end a start that lies before it.
pub proof fn lemma_targets_inside(program: Seq<Op>, at: int)
    requires
        well_formed(program),
        0 <= at < program.len(),
    ensures
        program[at] matches Op::StartLoop(end) ==> at < end < program.len() && program[end as int]
            == Op::EndLoop(at as nat),
        program[at] matches Op::EndLoop(start) ==> start < at && program[start as int]
            == Op::StartLoop(at as nat),
{
    reveal(tidy);
}

/// A loop start that is the last instruction is a placeholder, and its
/// loop is the innermost open one.
pub proof fn lemma_unopen_top(program: Seq<Op>, open: Seq<Opening>)
    requires
        tidy(program, open),
        program.len() > 0,
        program.last() is StartLoop,
    ensures
        program.last() == Op::StartLoop(0),
        open.len() > 0,
        open.last().index == program.len() - 1,
{
    reveal(tidy);
    let end = program.len() - 1;
    assert(program[end] is StartLoop);
    assert(program[end]->StartLoop_0 == 0);
    assert(pending(open, end));
    let top = choose|k: int| 0 <= k < open.len() && (#[trigger] open[k]).index == end;
    if top < open.len() - 1 {
        assert(open[top].index < open[open.len() - 1].index);
    }
}

/// A loop that was opened last and holds nothing yet can be taken away
/// with its opening.
pub proof fn lemma_unopen_tidy(program: Seq<Op>, open: Seq<Opening>)
    requires
        tidy(program, open),
        program.len() > 0,
        program.last() is StartLoop,
    ensures
        program.last() == Op::StartLoop(0),
        open.len() > 0,
        open.last().index == program.len() - 1,
        tidy(program.drop_last(), open.drop_last()),
{
    lemma_unopen_top(program, open);
    reveal(tidy);
    let end = program.len() - 1;
    let after = program.drop_last();
    let wait = open.drop_last();
    let top = open.len() - 1;
    assert forall|k: int| 0 <= k < wait.len() implies (#[trigger] wait[k]) == open[k]
        && wait[k].index < end by {
        assert(open[k].index < open[top].index);
    }
    assert forall|i: int| 0 <= i < after.len() implies sound(#[trigger] after[i]) by {
        assert(after[i] == program[i]);
    }
    assert forall|i: int| 0 <= i && i + 1 < after.len() implies !clash(
        #[trigger] after[i],
        after[i + 1],
    ) by {
        assert(after[i] == program[i]);
        assert(after[i + 1] == program[i + 1]);
    }
    assert forall|k: int| 0 <= k < wait.len() implies (#[trigger] wait[k]).index < after.len()
        && after[wait[k].index as int] == Op::StartLoop(0) by {
        assert(wait[k] == open[k]);
        assert(after[open[k].index as int] == program[open[k].index as int]);
    }
    assert forall|k: int, l: int| 0 <= k < l < wait.len() implies (#[trigger] wait[k]).index < (
    #[trigger] wait[l]).index by {
        assert(wait[k] == open[k]);
        assert(wait[l] == open[l]);
    }
    assert forall|i: int| 0 <= i < after.len() && (#[trigger] after[i]) is StartLoop implies if after[i]->StartLoop_0
        == 0 {
        pending(wait, i)
    } else {
        i < after[i]->StartLoop_0 < after.len() && after[after[i]->StartLoop_0 as int]
            == Op::EndLoop(i as nat)
    } by {
        assert(after[i] == program[i]);
        if program[i]->StartLoop_0 == 0 {
            let k = choose|k: int| 0 <= k < open.len() && (#[trigger] open[k]).index == i;
            assert(k != top);
            assert(wait[k] == open[k]);
        } else {
            let j = program[i]->StartLoop_0 as int;
            assert(program[j] == Op::EndLoop(i as nat));
            assert(j != end);
            assert(after[j] == program[j]);
        }
    }
    assert forall|j: int| 0 <= j < after.len() && (#[trigger] after[j]) is EndLoop implies after[j]->EndLoop_0
        < j && after[after[j]->EndLoop_0 as int] == Op::StartLoop(j as nat) by {
        assert(after[j] == program[j]);
        assert(after[program[j]->EndLoop_0 as int] == program[program[j]->EndLoop_0 as int]);
    }
    assert forall|a: int, b: int|
        0 <= a < b < after.len() && (#[trigger] after[a]) is StartLoop && (
        #[trigger] after[b]) is StartLoop && b < after[a]->StartLoop_0 implies 0
        < after[b]->StartLoop_0 < after[a]->StartLoop_0 by {
        assert(after[a] == program[a]);
        assert(after[b] == program[b]);
    }
    assert forall|a: int, k: int|
        0 <= a < after.len() && 0 <= k < wait.len() && (#[trigger] after[a]) is StartLoop && a < (
        #[trigger] wait[k]).index implies after[a]->StartLoop_0 < wait[k].index by {
        assert(after[a] == program[a]);
        assert(wait[k] == open[k]);
    }
}

/// A loop that was closed last can be opened again: its end is taken
/// away, its start becomes a placeholder and the innermost open loop.
pub proof fn lemma_reopen_tidy(program: Seq<Op>, open: Seq<Opening>, line: nat, column: nat)
    requires
        tidy(program, open),
        program.len() > 0,
        program.last() is EndLoop,
    ensures
        program.last()->EndLoop_0 < program.len() - 1,
        program[program.last()->EndLoop_0 as int] == Op::StartLoop((program.len() - 1) as nat),
        tidy(
            program.drop_last().update(program.last()->EndLoop_0 as int, Op::StartLoop(0)),
            open.push(Opening { index: program.last()->EndLoop_0, line, column }),
        ),
{
    reveal(tidy);
    let end = program.len() - 1;
    assert(program[end] is EndLoop);
    let start = program[end]->EndLoop_0 as int;
    assert(program[start] == Op::StartLoop(end as nat));
    let after = program.drop_last().update(start, Op::StartLoop(0));
    let wait = open.push(Opening { index: start as nat, line, column });
    let top = open.len() as int;
    assert(wait[top].index == start);
    assert forall|i: int| 0 <= i < end && i != start implies after[i] == program[i] by {}
    // the loop that is opened again lies inside every loop that is open
    assert forall|k: int| 0 <= k < open.len() implies (#[trigger] open[k]).index < start by {
        let other = open[k].index as int;
        assert(program[other] == Op::StartLoop(0));
        if start < other {
            assert(program[start] is StartLoop && program[other] is StartLoop);
            assert(other < program[start]->StartLoop_0);
            assert(0 < program[other]->StartLoop_0);
        }
    }
    assert forall|i: int| 0 <= i < after.len() implies sound(#[trigger] after[i]) by {
        if i != start {
            assert(after[i] == program[i]);
        }
    }
    assert forall|i: int| 0 <= i && i + 1 < after.len() implies !clash(
        #[trigger] after[i],
        after[i + 1],
    ) by {
        assert(!clash(program[i], program[i + 1]));
        assert(program[start].is_move() == after[start].is_move());
    }
    assert forall|k: int| 0 <= k < wait.len() implies (#[trigger] wait[k]).index < after.len()
        && after[wait[k].index as int] == Op::StartLoop(0) by {
        if k < top {
            assert(wait[k] == open[k]);
            assert(open[k].index < start);
            assert(after[open[k].index as int] == program[open[k].index as int]);
        }
    }
    assert forall|k: int, l: int| 0 <= k < l < wait.len() implies (#[trigger] wait[k]).index < (
    #[trigger] wait[l]).index by {
        assert(wait[k] == open[k]);
        if l < top {
            assert(wait[l] == open[l]);
        }
    }
    assert forall|i: int| 0 <= i < after.len() && (#[trigger] after[i]) is StartLoop implies if after[i]->StartLoop_0
        == 0 {
        pending(wait, i)
    } else {
        i < after[i]->StartLoop_0 < after.len() && after[after[i]->StartLoop_0 as int]
            == Op::EndLoop(i as nat)
    } by {
        if i == start {
            assert(wait[top].index == i);
        } else {
            assert(after[i] == program[i]);
            if program[i]->StartLoop_0 == 0 {
                let k = choose|k: int| 0 <= k < open.len() && (#[trigger] open[k]).index == i;
                assert(wait[k] == open[k]);
            } else {
                let j = program[i]->StartLoop_0 as int;
                assert(program[j] == Op::EndLoop(i as nat));
                assert(j != end);
                assert(j != start);
                assert(after[j] == program[j]);
            }
        }
    }
    assert forall|j: int| 0 <= j < after.len() && (#[trigger] after[j]) is EndLoop implies after[j]->EndLoop_0
        < j && after[after[j]->EndLoop_0 as int] == Op::StartLoop(j as nat) by {
        assert(after[j] == program[j]);
        let i = program[j]->EndLoop_0 as int;
        assert(program[i] == Op::StartLoop(j as nat));
        assert(i != start);
        assert(after[i] == program[i]);
    }
    assert forall|a: int, b: int|
        0 <= a < b < after.len() && (#[trigger] after[a]) is StartLoop && (
        #[trigger] after[b]) is StartLoop && b < after[a]->StartLoop_0 implies 0
        < after[b]->StartLoop_0 < after[a]->StartLoop_0 by {
        assert(a != start);
        assert(after[a] == program[a]);
        if b == start {
            assert(program[a] is StartLoop && program[b] is StartLoop);
            assert(program[b]->StartLoop_0 == end);
            assert(program[a]->StartLoop_0 < program.len());
        } else {
            assert(after[b] == program[b]);
        }
    }
    assert forall|a: int, k: int|
        0 <= a < after.len() && 0 <= k < wait.len() && (#[trigger] after[a]) is StartLoop && a < (
        #[trigger] wait[k]).index implies after[a]->StartLoop_0 < wait[k].index by {
        if k < top {
            assert(wait[k] == open[k]);
            assert(open[k].index < start);
            assert(after[a] == program[a]);
        } else {
            assert(after[a] == program[a]);
            assert(program[a] is StartLoop && program[start] is StartLoop);
            if start < program[a]->StartLoop_0 {
                assert(program[start]->StartLoop_0 < program[a]->StartLoop_0);
            }
            if program[a]->StartLoop_0 != 0 {
                assert(program[program[a]->StartLoop_0 as int] is EndLoop);
            }
        }
    }
}

} // verus!
