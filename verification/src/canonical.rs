//! The canonical text of a compiled program compiles to that program
//! again: nothing in it is left to fold.

use vstd::prelude::*;
use crate::error::Fault;
use crate::instruction::{render, Op};
use crate::structure::{
    clash, lemma_compile_well_formed, lemma_drop_plain, lemma_recount_plain, lemma_reopen_tidy,
    lemma_unopen_tidy, sound, tidy, well_formed,
};
use crate::syntax::{compile, scan, Opening, Scan};

verus! {

/// The text of a program with one more operation is the text of the
/// program, then that of the operation.
pub proof fn lemma_render_push(program: Seq<Op>, op: Op)
    ensures
        render(program.push(op)) == render(program) + op.text(),
{
    assert(program.push(op).drop_last() =~= program);
}

/// Programs whose operations have the same texts, one for one, have the
/// same text.
pub proof fn lemma_render_same_text(first: Seq<Op>, second: Seq<Op>)
    requires
        first.len() == second.len(),
        forall|i: int| 0 <= i < first.len() ==> (#[trigger] first[i]).text() == second[i].text(),
    ensures
        render(first) == render(second),
    decreases first.len(),
{
    if first.len() > 0 {
        assert(first[first.len() - 1].text() == second[first.len() - 1].text());
        assert forall|i: int| 0 <= i < first.drop_last().len() implies (
        #[trigger] first.drop_last()[i]).text() == second.drop_last()[i].text() by {
            assert(first[i].text() == second[i].text());
        }
        lemma_render_same_text(first.drop_last(), second.drop_last());
    }
}

/// The scan of a script with one more byte is the scan of the script,
/// then that byte.
pub proof fn lemma_scan_push(script: Seq<u8>, token: u8)
    ensures
        scan(script.push(token)) == match scan(script) {
            Ok(state) => state.consume(token),
            Err(fault) => Err(fault),
        },
{
    assert(script.push(token).drop_last() =~= script);
}

/// The operation whose text is that of `op` without its last token, if
/// that is an operation.
pub open spec fn lessened(op: Op) -> Option<Op> {
    match op {
        Op::MoveLeft(n) => if n > 1 {
            Some(Op::MoveLeft((n - 1) as nat))
        } else {
            None
        },
        Op::MoveRight(n) => if n > 1 {
            Some(Op::MoveRight((n - 1) as nat))
        } else {
            None
        },
        Op::Increment(n) => if n > 1 {
            Some(Op::Increment((n - 1) as nat))
        } else {
            None
        },
        Op::Decrement(n) => if n > 1 {
            Some(Op::Decrement((n - 1) as nat))
        } else {
            None
        },
        _ => None,
    }
}

/// Whether each open loop is recorded at the place where its bracket
/// stands in the text of `program`: on the first line, behind the text of
/// what precedes it.
pub open spec fn placed(program: Seq<Op>, open: Seq<Opening>) -> bool {
    forall|k: int|
        0 <= k < open.len() ==> (#[trigger] open[k]).line == 1 && open[k].column == 1 + render(
            program.take(open[k].index as int),
        ).len()
}

/// The state that the scan of the text of `program` ends in, where the
/// loops in `open` are those that the text leaves open.
pub open spec fn rendered(program: Seq<Op>, open: Seq<Opening>) -> Scan {
    Scan { program, open, line: 1, column: 1 + render(program).len() }
}

/// The open loops of a tidy program point at placeholders, none of which
/// is a last operation of another kind.
proof fn lemma_open_before(program: Seq<Op>, open: Seq<Opening>, k: int)
    requires
        tidy(program, open),
        0 <= k < open.len(),
    ensures
        open[k].index < program.len(),
        program[open[k].index as int] == Op::StartLoop(0),
{
    reveal(tidy);
}

/// The last operation of a tidy program is sound and does not clash with
/// the one before it.
proof fn lemma_last_apart(program: Seq<Op>, open: Seq<Opening>)
    requires
        tidy(program, open),
        program.len() > 0,
    ensures
        sound(program.last()),
        program.len() > 1 ==> !clash(program[program.len() - 2], program.last()),
{
    reveal(tidy);
    assert(sound(program[program.len() - 1]));
    if program.len() > 1 {
        assert(!clash(program[program.len() - 2], program[program.len() - 2 + 1]));
    }
}

/// The open loops of a tidy program are kept outermost first.
proof fn lemma_open_ascending(program: Seq<Op>, open: Seq<Opening>, k: int, l: int)
    requires
        tidy(program, open),
        0 <= k < l < open.len(),
    ensures
        open[k].index < open[l].index,
{
    reveal(tidy);
}

/// The state of the compiler one token before the end of the text of
/// `program`: the program and the open loops that the text without its
/// last token leaves.
spec fn earlier(program: Seq<Op>, open: Seq<Opening>) -> (Seq<Op>, Seq<Opening>) {
    let last = program.last();
    let front = program.drop_last();
    match last {
        Op::StartLoop(_) => (front, open.drop_last()),
        Op::EndLoop(start) => (
            front.update(start as int, Op::StartLoop(0)),
            open.push(
                Opening {
                    index: start,
                    line: 1,
                    column: 1 + render(program.take(start as int)).len(),
                },
            ),
        ),
        _ => (
            match lessened(last) {
                Some(less) => front.push(less),
                None => front,
            },
            open,
        ),
    }
}

/// What holds of the state one token before the end of the text of a
/// tidy program: it is tidy, its text is that of the program without the
/// last token, and that token leads from it to the program.
spec fn leads(program: Seq<Op>, open: Seq<Opening>) -> bool {
    let (rest, wait) = earlier(program, open);
    let token = program.last().token();
    &&& tidy(rest, wait)
    &&& placed(rest, wait)
    &&& render(program) == render(rest).push(token)
    &&& rendered(rest, wait).consume(token) == Ok::<Scan, Fault>(rendered(program, open))
}

/// The text of a program that ends with a loop start is led to by
/// opening that loop.
proof fn lemma_leads_opening(program: Seq<Op>, open: Seq<Opening>)
    requires
        tidy(program, open),
        placed(program, open),
        program.len() > 0,
        program.last() is StartLoop,
    ensures
        leads(program, open),
{
    let last = program.last();
    let front = program.drop_last();
    let token = last.token();
    let wait = open.drop_last();
    assert(program =~= front.push(last));
    lemma_render_push(front, last);
    lemma_unopen_tidy(program, open);
    assert forall|k: int| 0 <= k < wait.len() implies (#[trigger] wait[k]).line == 1
        && wait[k].column == 1 + render(front.take(wait[k].index as int)).len() by {
        assert(wait[k] == open[k]);
        lemma_open_before(front, wait, k);
        assert(front.take(wait[k].index as int) =~= program.take(open[k].index as int));
    }
    assert(last.text() =~= seq![token]);
    assert(render(program) =~= render(front).push(token));
    let top = open[open.len() - 1];
    assert(program.take(top.index as int) =~= front);
    assert(rendered(front, wait).opened().open =~= open);
    assert(rendered(front, wait).opened().program =~= program);
}

/// The text of a program that ends with a loop end is led to by closing
/// that loop.
proof fn lemma_leads_closing(program: Seq<Op>, open: Seq<Opening>)
    requires
        tidy(program, open),
        placed(program, open),
        program.len() > 0,
        program.last() is EndLoop,
    ensures
        leads(program, open),
{
    let last = program.last();
    let front = program.drop_last();
    let token = last.token();
    let start = last->EndLoop_0;
    let column = 1 + render(program.take(start as int)).len();
    let (rest, wait) = earlier(program, open);
    assert(program =~= front.push(last));
    lemma_render_push(front, last);
    lemma_reopen_tidy(program, open, 1, column);
    let top = open.len() as int;
    assert(wait[top].index == start);
    assert forall|k: int| 0 <= k < wait.len() implies (#[trigger] wait[k]).line == 1
        && wait[k].column == 1 + render(rest.take(wait[k].index as int)).len() by {
        if k < top {
            assert(wait[k] == open[k]);
            lemma_open_ascending(rest, wait, k, top);
        }
        assert(wait[k].index <= start);
        assert(rest.take(wait[k].index as int) =~= program.take(wait[k].index as int));
    }
    assert forall|i: int| 0 <= i < rest.len() implies (#[trigger] rest[i]).text()
        == front[i].text() by {
        if i == start {
            assert(rest[i].text() =~= front[i].text());
        }
    }
    lemma_render_same_text(rest, front);
    assert(last.text() =~= seq![token]);
    assert(render(program) =~= render(rest).push(token));
    assert(rendered(rest, wait).closed().open =~= open);
    assert(rendered(rest, wait).closed().program =~= program);
}

/// The text of a program that ends with a move, a cell change, a read or
/// a write is led to by folding that token in.
proof fn lemma_leads_folding(program: Seq<Op>, open: Seq<Opening>)
    requires
        tidy(program, open),
        placed(program, open),
        program.len() > 0,
        !(program.last() is StartLoop),
        !(program.last() is EndLoop),
    ensures
        leads(program, open),
{
    let last = program.last();
    let front = program.drop_last();
    let token = last.token();
    let (rest, wait) = earlier(program, open);
    assert(program =~= front.push(last));
    lemma_render_push(front, last);
    lemma_last_apart(program, open);
    match lessened(last) {
        Some(less) => {
            lemma_recount_plain(program, open, less);
            assert(last.text() =~= less.text().push(token));
            lemma_render_push(front, less);
            assert(render(program) =~= render(rest).push(token));
        },
        None => {
            lemma_drop_plain(program, open);
            assert(last.text() =~= seq![token]);
            assert(render(program) =~= render(rest).push(token));
        },
    }
    assert forall|k: int| 0 <= k < open.len() implies (#[trigger] open[k]).line == 1
        && open[k].column == 1 + render(rest.take(open[k].index as int)).len() by {
        lemma_open_before(program, open, k);
        assert(open[k].index < program.len() - 1);
        assert(rest.take(open[k].index as int) =~= program.take(open[k].index as int));
    }
    let next = rendered(rest, open).consume(token);
    assert(next is Ok);
    assert(next->Ok_0.program =~= program) by {
        if lessened(last) is Some {
            assert(rest.drop_last() =~= front);
        } else if front.len() > 0 {
            assert(front.last() == program[program.len() - 2]);
        }
    }
}

/// Scanning the text of a tidy program gives that program, with the loops
/// open that it leaves open.
pub proof fn lemma_scan_render(program: Seq<Op>, open: Seq<Opening>)
    requires
        tidy(program, open),
        placed(program, open),
    ensures
        scan(render(program)) == Ok::<Scan, Fault>(rendered(program, open)),
    decreases render(program).len(),
{
    if program.len() == 0 {
        if open.len() > 0 {
            lemma_open_before(program, open, 0);
        }
        assert(open =~= Seq::<Opening>::empty());
        assert(program =~= Seq::<Op>::empty());
        assert(render(program).len() == 0);
    } else {
        if program.last() is StartLoop {
            lemma_leads_opening(program, open);
        } else if program.last() is EndLoop {
            lemma_leads_closing(program, open);
        } else {
            lemma_leads_folding(program, open);
        }
        let (rest, wait) = earlier(program, open);
        lemma_scan_render(rest, wait);
        lemma_scan_push(render(rest), program.last().token());
    }
}

/// Compiling the canonical text of a well-formed program gives that
/// program.
pub proof fn lemma_compile_render(program: Seq<Op>)
    requires
        well_formed(program),
    ensures
        compile(render(program)) == Ok::<Seq<Op>, Fault>(program),
{
    lemma_scan_render(program, Seq::<Opening>::empty());
}

/// Compiling is idempotent: the canonical text of what a script compiled
/// to compiles to the same program.
pub proof fn lemma_compile_idempotent(script: Seq<u8>)
    ensures
        compile(script) matches Ok(program) ==> compile(render(program)) == Ok::<Seq<Op>, Fault>(
            program,
        ),
{
    lemma_compile_well_formed(script);
    if let Ok(program) = compile(script) {
        lemma_compile_render(program);
    }
}

} // verus!
