//! Properties of the collector that hold over every state and every memory
//! snapshot, proved from the model.

use crate::model::{
    block_ok, collected, is_path, lemma_total_size_insert, points_to, reachable, root_values,
    scanned_by, seeds, survivors, Allocation, GcView,
};
use crate::words::{is_word_in, lower, range_words, upper, word_at};
use vstd::prelude::*;

verus! {

/// The state after the blocks of `run`, given as pairs of base and size,
/// have been recorded one after the other.
pub open spec fn after_allocs(s: GcView, run: Seq<(u64, u64)>) -> GcView
    decreases run.len(),
{
    if run.len() == 0 {
        s
    } else {
        after_allocs(s, run.drop_last()).with_block(run.last().0, run.last().1)
    }
}

/// Sum of the sizes of a run of allocations.
pub open spec fn requested(run: Seq<(u64, u64)>) -> nat
    decreases run.len(),
{
    if run.len() == 0 {
        0
    } else {
        requested(run.drop_last()) + run.last().1 as nat
    }
}

/// What the allocator owes for a run of allocations: each block is sound
/// and positive in size, no base is live already or handed out twice, and
/// the byte count stays within its type.
pub open spec fn fresh_run(s: GcView, run: Seq<(u64, u64)>) -> bool {
    &&& forall|i: int|
        0 <= i < run.len() ==> block_ok(
            (#[trigger] run[i]).0,
            Allocation { base: run[i].0, size: run[i].1, marked: false },
        ) && !s.blocks.contains_key(run[i].0)
    &&& forall|i: int, j: int| 0 <= i < j < run.len() ==> run[i].0 != run[j].0
    &&& s.bytes_allocated + requested(run) <= u64::MAX
}

/// Registry accounting: after a run of allocations with no collection in
/// between, the byte count has grown by the sum of the requested sizes and
/// the registry by one entry for each request, found under its own base.
pub proof fn lemma_alloc_run_accounting(s: GcView, run: Seq<(u64, u64)>)
    requires
        s.wf(),
        fresh_run(s, run),
    ensures
        after_allocs(s, run).wf(),
        after_allocs(s, run).bytes_allocated == s.bytes_allocated + requested(run),
        after_allocs(s, run).blocks.dom().len() == s.blocks.dom().len() + run.len(),
        forall|i: int|
            0 <= i < run.len() ==> after_allocs(s, run).blocks.contains_key((#[trigger] run[i]).0)
                && after_allocs(s, run).blocks[run[i].0].size == run[i].1,
        forall|b: u64|
            after_allocs(s, run).blocks.contains_key(b) <==> s.blocks.contains_key(b) || exists|
                i: int,
            |
                0 <= i < run.len() && (#[trigger] run[i]).0 == b,
    decreases run.len(),
{
    if run.len() > 0 {
        let head = run.drop_last();
        let (base, size) = run.last();
        lemma_alloc_run_accounting(s, head);
        let mid = after_allocs(s, head);
        let end = after_allocs(s, run);
        lemma_total_size_insert(mid.blocks, base, Allocation { base, size, marked: false });
        assert(mid.blocks.remove(base) =~= mid.blocks);
        assert forall|i: int| 0 <= i < run.len() implies end.blocks.contains_key(
            (#[trigger] run[i]).0,
        ) && end.blocks[run[i].0].size == run[i].1 by {
            if i < head.len() {
                assert(head[i] == run[i]);
            }
        }
    }
}

/// Sweep soundness: a block is live after a collection if and only if it
/// was live before and is reachable from the seeds, and a block that stays
/// keeps its record.
pub proof fn lemma_collect_keeps_reachable(
    s: GcView,
    mem: Map<u64, u64>,
    stack_top: u64,
    stack_base: u64,
    b: u64,
)
    ensures
        collected(s, mem, stack_top, stack_base).blocks.contains_key(b) <==> s.blocks.contains_key(
            b,
        ) && reachable(s.blocks, mem, seeds(mem, s.global_roots, stack_top, stack_base), b),
        collected(s, mem, stack_top, stack_base).blocks.contains_key(b) ==> collected(
            s,
            mem,
            stack_top,
            stack_base,
        ).blocks[b] == s.blocks[b],
{
}

/// Every block on a path is itself reachable.
proof fn lemma_path_stays_reachable(
    blocks: Map<u64, Allocation>,
    mem: Map<u64, u64>,
    from: Set<u64>,
    path: Seq<u64>,
    i: int,
)
    requires
        is_path(blocks, mem, from, path),
        0 <= i < path.len(),
    ensures
        reachable(blocks, mem, from, path[i]),
{
    let head = path.take(i + 1);
    assert(is_path(blocks, mem, from, head));
}

/// What is reachable stays reachable when the unreachable blocks are gone.
pub proof fn lemma_survivors_all_reachable(
    blocks: Map<u64, Allocation>,
    mem: Map<u64, u64>,
    from: Set<u64>,
)
    ensures
        survivors(survivors(blocks, mem, from), mem, from) == survivors(blocks, mem, from),
{
    let kept = survivors(blocks, mem, from);
    assert forall|b: u64| kept.contains_key(b) implies reachable(kept, mem, from, b) by {
        let path = choose|path: Seq<u64>| #[trigger]
            is_path(blocks, mem, from, path) && path.last() == b;
        assert forall|i: int| 0 <= i < path.len() implies kept.contains_key(
            #[trigger] path[i],
        ) by {
            lemma_path_stays_reachable(blocks, mem, from, path, i);
        }
        assert(is_path(kept, mem, from, path));
    }
}

/// Mark idempotence: a second collection over the same memory, with no
/// allocation in between, keeps every block and changes nothing.
pub proof fn lemma_collect_twice(s: GcView, mem: Map<u64, u64>, stack_top: u64, stack_base: u64)
    ensures
        collected(collected(s, mem, stack_top, stack_base), mem, stack_top, stack_base)
            == collected(s, mem, stack_top, stack_base),
{
    lemma_survivors_all_reachable(
        s.blocks,
        mem,
        seeds(mem, s.global_roots, stack_top, stack_base),
    );
}

/// Alignment: the base of every live block lies on a word boundary, is not
/// null, and the block ends within the address space.
pub proof fn lemma_live_blocks_aligned(s: GcView, b: u64)
    requires
        s.wf(),
        s.blocks.contains_key(b),
    ensures
        b % 8 == 0,
        b != 0,
        s.blocks[b].base == b,
        s.blocks[b].size > 0,
        b + s.blocks[b].size <= u64::MAX,
{
    assert(block_ok(b, s.blocks[b]));
}

/// Two snapshots that agree on the aligned words of a range give the range
/// the same values.
proof fn lemma_range_words_agree(m1: Map<u64, u64>, m2: Map<u64, u64>, low: int, high: int)
    requires
        forall|a: u64| is_word_in(low, high, a as int) ==> word_at(m1, a) == word_at(m2, a),
    ensures
        range_words(m1, low, high) == range_words(m2, low, high),
{
}

/// A collection reads nothing but the root slots and the aligned words of
/// the stack and of the live blocks: over two snapshots that agree on
/// these, it leaves the same state.
pub proof fn lemma_collect_reads_scanned_words_only(
    s: GcView,
    m1: Map<u64, u64>,
    m2: Map<u64, u64>,
    stack_top: u64,
    stack_base: u64,
)
    requires
        forall|a: u64|
            scanned_by(s, stack_top, stack_base, a as int) ==> word_at(m1, a) == word_at(m2, a),
    ensures
        collected(s, m1, stack_top, stack_base) == collected(s, m2, stack_top, stack_base),
{
    let low = lower(stack_top, stack_base) as int;
    let high = upper(stack_top, stack_base) as int;
    let roots = s.global_roots;
    lemma_range_words_agree(m1, m2, low, high);
    let from = seeds(m1, roots, stack_top, stack_base);
    assert(from == seeds(m2, roots, stack_top, stack_base));
    assert forall|x: u64, y: u64| points_to(s.blocks, m1, x, y) == points_to(s.blocks, m2, x, y) by {
        if s.blocks.contains_key(x) {
            lemma_range_words_agree(m1, m2, x as int, x + s.blocks[x].size);
        }
    }
    assert forall|b: u64| reachable(s.blocks, m1, from, b) == reachable(s.blocks, m2, from, b) by {
        if reachable(s.blocks, m1, from, b) {
            let path = choose|path: Seq<u64>| #[trigger]
                is_path(s.blocks, m1, from, path) && path.last() == b;
            assert(is_path(s.blocks, m2, from, path));
        }
        if reachable(s.blocks, m2, from, b) {
            let path = choose|path: Seq<u64>| #[trigger]
                is_path(s.blocks, m2, from, path) && path.last() == b;
            assert(is_path(s.blocks, m1, from, path));
        }
    }
    assert(Set::new(|b: u64| reachable(s.blocks, m1, from, b)) =~= Set::new(
        |b: u64| reachable(s.blocks, m2, from, b),
    ));
}

} // verus!
