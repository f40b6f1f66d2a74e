//! The mathematical model of the collector: allocation records, the
//! accounting of live bytes, and reachability over a memory snapshot.

use crate::words::{is_word_in, lower, range_words, upper, word_at};
use vstd::prelude::*;

verus! {

/// The record kept for one live heap block.
#[derive(Clone, Copy, PartialEq, Eq, Structural, Debug)]
pub struct Allocation {
    /// Address handed to the mutator; the key of the record.
    pub base: u64,
    /// Size in bytes, as requested.
    pub size: u64,
    /// Set while a collection has found the block reachable.
    pub marked: bool,
}

/// What the registry may hold under the key `base`: the record of a
/// non-empty, word-aligned block that ends within the address space.
pub open spec fn block_ok(base: u64, a: Allocation) -> bool {
    &&& a.base == base
    &&& base != 0
    &&& base % 8 == 0
    &&& a.size > 0
    &&& base + a.size <= u64::MAX
}

/// The collector's state between two calls, as plain mathematics.
pub struct GcView {
    /// The heap registry: every live block, keyed by its base address.
    pub blocks: Map<u64, Allocation>,
    /// The registered root slots, in the order of their registration.
    pub global_roots: Seq<u64>,
    /// Running count of the bytes held by live blocks.
    pub bytes_allocated: u64,
    /// Level of `bytes_allocated` from which an allocation collects first.
    pub threshold: u64,
}

/// The threshold that a new collector starts with: one mebibyte.
pub const DEFAULT_THRESHOLD: u64 = 1048576;

impl GcView {
    /// The state of a collector that has just been created.
    pub open spec fn initial() -> GcView {
        GcView {
            blocks: Map::empty(),
            global_roots: Seq::empty(),
            bytes_allocated: 0,
            threshold: DEFAULT_THRESHOLD,
        }
    }

    /// What holds of the state whenever no collection is under way: the
    /// registry is finite, each record is sound and unmarked, and the byte
    /// count is the sum of the recorded sizes.
    pub open spec fn wf(self) -> bool {
        &&& records_ok(self.blocks)
        &&& forall|b: u64| self.blocks.contains_key(b) ==> !(#[trigger] self.blocks[b]).marked
        &&& self.bytes_allocated == total_size(self.blocks)
    }

    /// The state after a block of `size` bytes at `base` has been recorded.
    pub open spec fn with_block(self, base: u64, size: u64) -> GcView {
        GcView {
            blocks: self.blocks.insert(base, Allocation { base, size, marked: false }),
            bytes_allocated: (self.bytes_allocated + size) as u64,
            ..self
        }
    }

    /// The state after one more root slot has been registered.
    pub open spec fn with_root(self, slot: u64) -> GcView {
        GcView { global_roots: self.global_roots.push(slot), ..self }
    }

    /// The state after shutdown: nothing is left but the threshold.
    pub open spec fn drained(self) -> GcView {
        GcView {
            blocks: Map::empty(),
            global_roots: Seq::empty(),
            bytes_allocated: 0,
            threshold: self.threshold,
        }
    }
}

/// Every record of a finite registry is sound.
pub open spec fn records_ok(blocks: Map<u64, Allocation>) -> bool {
    &&& blocks.dom().finite()
    &&& forall|b: u64| blocks.contains_key(b) ==> block_ok(b, #[trigger] blocks[b])
}

/// Sum of the sizes of the blocks of a registry.
pub open spec fn total_size(blocks: Map<u64, Allocation>) -> nat
    decreases blocks.dom().len(),
    when blocks.dom().finite()
{
    if blocks.dom().is_empty() {
        0
    } else {
        let k = blocks.dom().choose();
        blocks[k].size as nat + total_size(blocks.remove(k))
    }
}

/// Taking one block out of a registry lowers the total by its size.
pub proof fn lemma_total_size_remove(blocks: Map<u64, Allocation>, base: u64)
    requires
        blocks.dom().finite(),
        blocks.contains_key(base),
    ensures
        total_size(blocks) == blocks[base].size + total_size(blocks.remove(base)),
    decreases blocks.dom().len(),
{
    let k = blocks.dom().choose();
    if k != base {
        lemma_total_size_remove(blocks.remove(k), base);
        lemma_total_size_remove(blocks.remove(base), k);
        assert(blocks.remove(k).remove(base) =~= blocks.remove(base).remove(k));
    }
}

/// After a record has been written under a key, the total is the size of
/// that record and the total of the records under all other keys.
pub proof fn lemma_total_size_insert(blocks: Map<u64, Allocation>, base: u64, a: Allocation)
    requires
        blocks.dom().finite(),
    ensures
        total_size(blocks.insert(base, a)) == a.size + total_size(blocks.remove(base)),
{
    lemma_total_size_remove(blocks.insert(base, a), base);
    assert(blocks.insert(base, a).remove(base) =~= blocks.remove(base));
}

/// The values that the registered root slots hold in a memory snapshot.
pub open spec fn root_values(mem: Map<u64, u64>, roots: Seq<u64>) -> Set<u64> {
    Set::new(|v: u64| exists|i: int| 0 <= i < roots.len() && word_at(mem, #[trigger] roots[i]) == v)
}

/// The candidate pointers that seed a collection: what the root slots hold,
/// and what the aligned words of the stack hold.  The stack lies between
/// its two ends, whichever of them is the lower.
pub open spec fn seeds(mem: Map<u64, u64>, roots: Seq<u64>, stack_top: u64, stack_base: u64) -> Set<
    u64,
> {
    root_values(mem, roots).union(
        range_words(
            mem,
            lower(stack_top, stack_base) as int,
            upper(stack_top, stack_base) as int,
        ),
    )
}

/// Block `a` holds the value `b` in an aligned word of its body.  Of a body
/// whose size is no multiple of the word size, the last bytes are skipped.
pub open spec fn points_to(blocks: Map<u64, Allocation>, mem: Map<u64, u64>, a: u64, b: u64) -> bool {
    blocks.contains_key(a) && range_words(mem, a as int, a + blocks[a].size).contains(b)
}

/// `path` leads from a seed through registered blocks, each found in the
/// body of the one before it.
pub open spec fn is_path(
    blocks: Map<u64, Allocation>,
    mem: Map<u64, u64>,
    from: Set<u64>,
    path: Seq<u64>,
) -> bool {
    &&& path.len() > 0
    &&& from.contains(path[0])
    &&& forall|i: int| 0 <= i < path.len() ==> blocks.contains_key(#[trigger] path[i])
    &&& forall|i: int| 0 < i < path.len() ==> points_to(blocks, mem, path[i - 1], #[trigger] path[i])
}

/// Block `b` is registered and a path leads to it from a seed.
pub open spec fn reachable(
    blocks: Map<u64, Allocation>,
    mem: Map<u64, u64>,
    from: Set<u64>,
    b: u64,
) -> bool {
    exists|path: Seq<u64>| #[trigger] is_path(blocks, mem, from, path) && path.last() == b
}

/// The registry cut down to its reachable blocks.
pub open spec fn survivors(blocks: Map<u64, Allocation>, mem: Map<u64, u64>, from: Set<u64>) -> Map<
    u64,
    Allocation,
> {
    blocks.restrict(Set::new(|b: u64| reachable(blocks, mem, from, b)))
}

/// The state that a full collection leaves: the reachable blocks, and the
/// sum of their sizes.
pub open spec fn collected(s: GcView, mem: Map<u64, u64>, stack_top: u64, stack_base: u64) -> GcView {
    let kept = survivors(s.blocks, mem, seeds(mem, s.global_roots, stack_top, stack_base));
    GcView { blocks: kept, bytes_allocated: total_size(kept) as u64, ..s }
}

/// The address `a` is read by a collection in state `s`: it is a registered
/// root slot, or the address of an aligned word of the stack or of the body
/// of a live block.
pub open spec fn scanned_by(s: GcView, stack_top: u64, stack_base: u64, a: int) -> bool {
    ||| exists|i: int| 0 <= i < s.global_roots.len() && #[trigger] s.global_roots[i] == a
    ||| is_word_in(lower(stack_top, stack_base) as int, upper(stack_top, stack_base) as int, a)
    ||| exists|b: u64| #[trigger]
        s.blocks.contains_key(b) && is_word_in(b as int, b + s.blocks[b].size, a)
}

/// A registered seed is reachable.
pub proof fn lemma_seed_reachable(
    blocks: Map<u64, Allocation>,
    mem: Map<u64, u64>,
    from: Set<u64>,
    b: u64,
)
    requires
        blocks.contains_key(b),
        from.contains(b),
    ensures
        reachable(blocks, mem, from, b),
{
    assert(is_path(blocks, mem, from, seq![b]));
}

/// A registered block found in the body of a reachable block is reachable.
pub proof fn lemma_successor_reachable(
    blocks: Map<u64, Allocation>,
    mem: Map<u64, u64>,
    from: Set<u64>,
    a: u64,
    b: u64,
)
    requires
        reachable(blocks, mem, from, a),
        points_to(blocks, mem, a, b),
        blocks.contains_key(b),
    ensures
        reachable(blocks, mem, from, b),
{
    let path = choose|path: Seq<u64>| #[trigger] is_path(blocks, mem, from, path) && path.last() == a;
    let longer = path.push(b);
    assert(is_path(blocks, mem, from, longer));
}

/// A set of blocks that holds every registered seed and, with a block,
/// every registered block found in its body, holds every reachable block.
pub proof fn lemma_closed_set_holds_reachable(
    blocks: Map<u64, Allocation>,
    mem: Map<u64, u64>,
    from: Set<u64>,
    closed: Set<u64>,
    b: u64,
)
    requires
        forall|s: u64| blocks.contains_key(s) && from.contains(s) ==> closed.contains(s),
        forall|x: u64, y: u64|
            closed.contains(x) && blocks.contains_key(y) && #[trigger] points_to(blocks, mem, x, y)
                ==> closed.contains(y),
        reachable(blocks, mem, from, b),
    ensures
        closed.contains(b),
{
    let path = choose|path: Seq<u64>| #[trigger] is_path(blocks, mem, from, path) && path.last() == b;
    lemma_closed_set_holds_path(blocks, mem, from, closed, path, path.len() - 1);
}

proof fn lemma_closed_set_holds_path(
    blocks: Map<u64, Allocation>,
    mem: Map<u64, u64>,
    from: Set<u64>,
    closed: Set<u64>,
    path: Seq<u64>,
    i: int,
)
    requires
        forall|s: u64| blocks.contains_key(s) && from.contains(s) ==> closed.contains(s),
        forall|x: u64, y: u64|
            closed.contains(x) && blocks.contains_key(y) && #[trigger] points_to(blocks, mem, x, y)
                ==> closed.contains(y),
        is_path(blocks, mem, from, path),
        0 <= i < path.len(),
    ensures
        closed.contains(path[i]),
    decreases i,
{
    if i > 0 {
        lemma_closed_set_holds_path(blocks, mem, from, closed, path, i - 1);
    }
}

} // verus!
