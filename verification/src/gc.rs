//! The collector: heap registry, root set, allocation policy, mark and sweep.

use crate::model::{
    block_ok, collected, lemma_closed_set_holds_reachable, lemma_seed_reachable,
    lemma_successor_reachable, lemma_total_size_insert, lemma_total_size_remove, points_to,
    reachable, records_ok, root_values, seeds, survivors, total_size, Allocation, GcView,
    DEFAULT_THRESHOLD,
};
use crate::words::{
    in_spans, is_word_in, lemma_span_words_cover, lower, order_ends, range_words, read_word,
    span_words, upper, word_at, word_span, WordSpan,
};
use std::collections::HashMap;
use vstd::prelude::*;
use vstd::set_lib::lemma_set_subset_finite;
use vstd::std_specs::iter::IteratorSpec;

verus! {

broadcast use vstd::std_specs::hash::group_hash_axioms;

/// The state of the collector.
pub struct GcState {
    allocations: HashMap<u64, Allocation>,
    global_roots: Vec<u64>,
    bytes_allocated: u64,
    threshold: u64,
}

impl View for GcState {
    type V = GcView;

    closed spec fn view(&self) -> GcView {
        GcView {
            blocks: self.allocations@,
            global_roots: self.global_roots@,
            bytes_allocated: self.bytes_allocated,
            threshold: self.threshold,
        }
    }
}

/// What serving an allocation request takes.
#[derive(Clone, Copy, PartialEq, Eq, Structural, Debug)]
pub enum AllocAction {
    /// The size is not positive: hand back the null pointer, touch nothing.
    Null,
    /// Obtain `bytes` bytes at word alignment and record the block; if
    /// `collect_first` is set, run a full collection before obtaining them.
    Allocate { bytes: u64, collect_first: bool },
}

/// The action that a request for `size` bytes calls for in state `s`.
pub open spec fn alloc_action(s: GcView, size: i64) -> AllocAction {
    if size <= 0 {
        AllocAction::Null
    } else {
        AllocAction::Allocate {
            bytes: size as u64,
            collect_first: s.bytes_allocated >= s.threshold,
        }
    }
}

/// The registered blocks that carry no mark.
spec fn unmarked_set(blocks: Map<u64, Allocation>) -> Set<u64> {
    Set::new(|b: u64| blocks.contains_key(b) && !blocks[b].marked)
}

/// `post` holds the blocks of `pre`; at most the marks differ.
spec fn same_blocks(pre: Map<u64, Allocation>, post: Map<u64, Allocation>) -> bool {
    &&& pre.dom() == post.dom()
    &&& forall|b: u64| #[trigger]
        pre.contains_key(b) ==> pre[b].base == post[b].base && pre[b].size == post[b].size
}

/// Marks do not count: registries with the same blocks have the same total.
proof fn lemma_same_blocks_same_total(pre: Map<u64, Allocation>, post: Map<u64, Allocation>)
    requires
        pre.dom().finite(),
        same_blocks(pre, post),
    ensures
        total_size(pre) == total_size(post),
    decreases pre.dom().len(),
{
    if !pre.dom().is_empty() {
        let k = pre.dom().choose();
        lemma_same_blocks_same_total(pre.remove(k), post.remove(k));
    }
}

/// The marking step from `pre` to `post` with the candidates `found`:
/// every registered candidate is marked now, no other mark has changed, and
/// the blocks that gained their mark were appended to the work list.
spec fn marks_added(
    pre: Map<u64, Allocation>,
    post: Map<u64, Allocation>,
    pre_pending: Seq<u64>,
    post_pending: Seq<u64>,
    found: Set<u64>,
) -> bool {
    &&& same_blocks(pre, post)
    &&& forall|b: u64| #[trigger]
        pre.contains_key(b) ==> (post[b].marked <==> pre[b].marked || found.contains(b))
    &&& pre_pending.len() <= post_pending.len()
    &&& forall|j: int| 0 <= j < pre_pending.len() ==> #[trigger] post_pending[j] == pre_pending[j]
    &&& forall|j: int|
        pre_pending.len() <= j < post_pending.len() ==> {
            let b = #[trigger] post_pending[j];
            pre.contains_key(b) && !pre[b].marked && found.contains(b)
        }
    &&& forall|b: u64|
        pre.contains_key(b) && !pre[b].marked && #[trigger] found.contains(b)
            ==> post_pending.contains(b)
    &&& unmarked_set(post).len() + post_pending.len() == unmarked_set(pre).len()
        + pre_pending.len()
}

/// A step that marks nothing.
proof fn lemma_marks_added_none(blocks: Map<u64, Allocation>, pending: Seq<u64>, found: Set<u64>)
    requires
        forall|b: u64| found.contains(b) && blocks.contains_key(b) ==> blocks[b].marked,
    ensures
        marks_added(blocks, blocks, pending, pending, found),
{
}

/// Two marking steps in a row make one step with both sets of candidates.
proof fn lemma_marks_added_twice(
    a: Map<u64, Allocation>,
    b: Map<u64, Allocation>,
    c: Map<u64, Allocation>,
    pa: Seq<u64>,
    pb: Seq<u64>,
    pc: Seq<u64>,
    first: Set<u64>,
    second: Set<u64>,
)
    requires
        marks_added(a, b, pa, pb, first),
        marks_added(b, c, pb, pc, second),
    ensures
        marks_added(a, c, pa, pc, first.union(second)),
{
    let both = first.union(second);
    assert forall|x: u64| a.contains_key(x) && !a[x].marked && #[trigger] both.contains(x) implies pc.contains(
        x,
    ) by {
        if first.contains(x) {
            let j = choose|j: int| 0 <= j < pb.len() && pb[j] == x;
            assert(pc[j] == x);
        }
    }
}

/// A record with its mark cleared.
spec fn cleared(a: Allocation) -> Allocation {
    Allocation { marked: false, ..a }
}

/// The registry after the sweep has dealt with the blocks of `done`: of
/// these the unmarked are gone and the marked have lost their mark.
spec fn swept(blocks: Map<u64, Allocation>, done: Set<u64>) -> Map<u64, Allocation> {
    Map::new(
        |b: u64| blocks.contains_key(b) && (done.contains(b) ==> blocks[b].marked),
        |b: u64|
            if done.contains(b) {
                cleared(blocks[b])
            } else {
                blocks[b]
            },
    )
}

/// The bases of a registry, each once, in the order in which the table
/// yields them.
fn bases_of(allocations: &HashMap<u64, Allocation>) -> (bases: Vec<u64>)
    ensures
        bases@.no_duplicates(),
        bases@.to_set() == allocations@.dom(),
{
    let mut bases: Vec<u64> = Vec::new();
    for base in it: allocations.keys()
        invariant
            bases@ == it.seq().take(it.index() as int).unref(),
            it.seq() == allocations.keys().remaining(),
    {
        bases.push(*base);
    }
    assert(bases@ == allocations.keys().remaining().unref());
    bases
}

/// What holds while the work list is being emptied.  `orig` is the registry
/// at the start of the collection, `cur` the registry now, `scanned` the
/// blocks whose bodies have been gone through.
spec fn mark_inv(
    orig: Map<u64, Allocation>,
    cur: Map<u64, Allocation>,
    mem: Map<u64, u64>,
    from: Set<u64>,
    pending: Seq<u64>,
    scanned: Set<u64>,
) -> bool {
    &&& same_blocks(orig, cur)
    &&& forall|b: u64| #[trigger]
        cur.contains_key(b) && cur[b].marked ==> reachable(orig, mem, from, b)
    &&& forall|b: u64| orig.contains_key(b) && #[trigger] from.contains(b) ==> cur[b].marked
    &&& forall|b: u64| #[trigger]
        cur.contains_key(b) && cur[b].marked ==> scanned.contains(b) || pending.contains(b)
    &&& forall|j: int|
        0 <= j < pending.len() ==> cur.contains_key(#[trigger] pending[j]) && cur[pending[j]].marked
    &&& forall|a: u64, b: u64|
        scanned.contains(a) && orig.contains_key(b) && #[trigger] points_to(orig, mem, a, b)
            ==> cur[b].marked
}

/// Seeding an unmarked registry establishes the invariant of the work list.
proof fn lemma_seeded(
    orig: Map<u64, Allocation>,
    cur: Map<u64, Allocation>,
    mem: Map<u64, u64>,
    from: Set<u64>,
    pending: Seq<u64>,
)
    requires
        forall|b: u64| orig.contains_key(b) ==> !(#[trigger] orig[b]).marked,
        marks_added(orig, cur, Seq::empty(), pending, from),
    ensures
        mark_inv(orig, cur, mem, from, pending, Set::empty()),
{
    assert forall|b: u64| #[trigger] cur.contains_key(b) && cur[b].marked implies reachable(
        orig,
        mem,
        from,
        b,
    ) by {
        lemma_seed_reachable(orig, mem, from, b);
    }
}

/// Scanning the body of the block taken off the work list keeps the
/// invariant, with that block among the scanned ones.
proof fn lemma_scanned(
    orig: Map<u64, Allocation>,
    cur: Map<u64, Allocation>,
    next: Map<u64, Allocation>,
    mem: Map<u64, u64>,
    from: Set<u64>,
    rest: Seq<u64>,
    after: Seq<u64>,
    scanned: Set<u64>,
    b: u64,
)
    requires
        mark_inv(orig, cur, mem, from, rest.push(b), scanned),
        marks_added(cur, next, rest, after, range_words(mem, b as int, b + orig[b].size)),
    ensures
        mark_inv(orig, next, mem, from, after, scanned.insert(b)),
{
    let before = rest.push(b);
    assert(before[rest.len() as int] == b);
    assert forall|x: u64| #[trigger] next.contains_key(x) && next[x].marked implies reachable(
        orig,
        mem,
        from,
        x,
    ) by {
        if !cur[x].marked {
            lemma_successor_reachable(orig, mem, from, b, x);
        }
    }
    assert forall|x: u64| #[trigger] next.contains_key(x) && next[x].marked implies scanned.insert(
        b,
    ).contains(x) || after.contains(x) by {
        if cur[x].marked {
            if !scanned.contains(x) && x != b {
                let j = choose|j: int| 0 <= j < before.len() && before[j] == x;
                assert(after[j] == rest[j]);
            }
        }
    }
    assert forall|j: int| 0 <= j < after.len() implies next.contains_key(#[trigger] after[j])
        && next[after[j]].marked by {
        if j < rest.len() {
            assert(cur.contains_key(before[j]));
        }
    }
}

/// Once the work list is empty, the marked blocks are the reachable ones,
/// so the sweep leaves exactly the survivors.
proof fn lemma_marked_are_survivors(
    orig: Map<u64, Allocation>,
    cur: Map<u64, Allocation>,
    mem: Map<u64, u64>,
    from: Set<u64>,
    scanned: Set<u64>,
)
    requires
        forall|b: u64| orig.contains_key(b) ==> !(#[trigger] orig[b]).marked,
        mark_inv(orig, cur, mem, from, Seq::empty(), scanned),
    ensures
        swept(cur, cur.dom()) == survivors(orig, mem, from),
        forall|b: u64| #[trigger]
            orig.contains_key(b) ==> (cur[b].marked <==> reachable(orig, mem, from, b)),
{
    let marked = Set::new(|b: u64| cur.contains_key(b) && cur[b].marked);
    assert forall|b: u64| #[trigger] orig.contains_key(b) implies (cur[b].marked <==> reachable(
        orig,
        mem,
        from,
        b,
    )) by {
        if reachable(orig, mem, from, b) {
            lemma_closed_set_holds_reachable(orig, mem, from, marked, b);
        }
    }
}

/// A block of `size` bytes at `base` can join the live blocks of `s`: it is
/// not empty, starts at a word boundary other than null, ends within the
/// address space, its base is not live already, and the byte count has
/// room for it.
pub open spec fn can_record(s: GcView, base: u64, size: u64) -> bool {
    &&& block_ok(base, Allocation { base, size, marked: false })
    &&& !s.blocks.contains_key(base)
    &&& s.bytes_allocated + size <= u64::MAX
}

impl GcState {
    /// The state is sound and no collection is under way.
    pub open spec fn wf(&self) -> bool {
        self@.wf()
    }

    /// An empty collector with the default threshold.
    pub fn new() -> (gc: GcState)
        ensures
            gc@ == GcView::initial(),
            gc.wf(),
    {
        GcState {
            allocations: HashMap::new(),
            global_roots: Vec::new(),
            bytes_allocated: 0,
            threshold: DEFAULT_THRESHOLD,
        }
    }

    /// Records the block of `size` bytes that the system allocator handed
    /// out at `base` for the request being served, and tells whether it
    /// did.  A block that cannot be live is turned down and nothing changes.
    pub fn record(&mut self, base: u64, size: u64) -> (ok: bool)
        requires
            old(self).wf(),
        ensures
            final(self).wf(),
            ok == can_record(old(self)@, base, size),
            final(self)@ == if ok {
                old(self)@.with_block(base, size)
            } else {
                old(self)@
            },
    {
        if base == 0 || base % 8 != 0 || size == 0 || size > u64::MAX - base || size > u64::MAX
            - self.bytes_allocated || self.allocations.contains_key(&base) {
            return false;
        }
        let a = Allocation { base, size, marked: false };
        proof {
            lemma_total_size_insert(self.allocations@, base, a);
            assert(self.allocations@.remove(base) =~= self.allocations@);
        }
        self.allocations.insert(base, a);
        self.bytes_allocated = self.bytes_allocated + size;
        true
    }

    /// Bytes held by live blocks.
    pub fn bytes_allocated(&self) -> (n: u64)
        ensures
            n == self@.bytes_allocated,
    {
        self.bytes_allocated
    }

    /// Level of live bytes from which an allocation collects first.
    pub fn threshold(&self) -> (n: u64)
        ensures
            n == self@.threshold,
    {
        self.threshold
    }

    /// Number of live blocks.
    pub fn block_count(&self) -> (n: usize)
        ensures
            n == self@.blocks.dom().len(),
    {
        self.allocations.len()
    }

    /// The record of the live block at `base`, if there is one.
    pub fn lookup(&self, base: u64) -> (found: Option<Allocation>)
        ensures
            found == if self@.blocks.contains_key(base) {
                Some(self@.blocks[base])
            } else {
                None
            },
    {
        match self.allocations.get(&base) {
            Some(a) => Some(*a),
            None => None,
        }
    }

    /// The registered root slots, in the order of their registration.
    pub fn global_roots(&self) -> (roots: &Vec<u64>)
        ensures
            roots@ == self@.global_roots,
    {
        &self.global_roots
    }

    /// The records of all live blocks, each once, in no particular order.
    pub fn live_blocks(&self) -> (all: Vec<Allocation>)
        requires
            self.wf(),
        ensures
            forall|i: int, j: int| 0 <= i < j < all.len() ==> all[i].base != all[j].base,
            forall|a: Allocation|
                all@.contains(a) <==> self@.blocks.contains_key(a.base) && self@.blocks[a.base]
                    == a,
    {
        let bases = bases_of(&self.allocations);
        let mut all: Vec<Allocation> = Vec::new();
        let mut i: usize = 0;
        while i < bases.len()
            invariant
                i <= bases.len(),
                self.wf(),
                bases@.no_duplicates(),
                bases@.to_set() == self.allocations@.dom(),
                all.len() == i,
                forall|j: int|
                    0 <= j < i ==> self.allocations@.contains_key(bases@[j]) && #[trigger] all[j]
                        == self.allocations@[bases@[j]],
            decreases bases.len() - i,
        {
            let base: u64 = bases[i];
            match self.allocations.get(&base) {
                Some(a) => {
                    all.push(*a);
                },
                None => {},
            }
            i = i + 1;
        }
        proof {
            assert forall|a: Allocation|
                self@.blocks.contains_key(a.base) && self@.blocks[a.base] == a implies all@.contains(
                a,
            ) by {
                let j = choose|j: int| 0 <= j < bases@.len() && bases@[j] == a.base;
                assert(all[j] == a);
            }
        }
        all
    }

    /// The runs of aligned words that a collection would scan: those of the
    /// stack between `stack_top` and `stack_base`, and those of the body of
    /// each live block.  A memory snapshot for the collection has to hold
    /// these words and the words at the root slots, and no others.
    pub fn scan_spans(&self, stack_top: u64, stack_base: u64) -> (spans: Vec<WordSpan>)
        requires
            self.wf(),
        ensures
            forall|k: int|
                0 <= k < spans.len() ==> (#[trigger] spans[k]).first + 8 * spans[k].count
                    <= u64::MAX,
            forall|a: int|
                in_spans(spans@, a) <==> is_word_in(
                    lower(stack_top, stack_base) as int,
                    upper(stack_top, stack_base) as int,
                    a,
                ) || exists|b: u64| #[trigger]
                    self@.blocks.contains_key(b) && is_word_in(
                        b as int,
                        b + self@.blocks[b].size,
                        a,
                    ),
    {
        let (low, high) = order_ends(stack_top, stack_base);
        let all = self.live_blocks();
        let mut spans: Vec<WordSpan> = Vec::new();
        spans.push(word_span(low, high));
        let mut j: usize = 0;
        while j < all.len()
            invariant
                j <= all.len(),
                self.wf(),
                spans.len() == j + 1,
                spans[0].covers(low as int, high as int),
                forall|a: Allocation|
                    all@.contains(a) <==> self@.blocks.contains_key(a.base) && self@.blocks[a.base]
                        == a,
                forall|k: int|
                    0 <= k < spans.len() ==> (#[trigger] spans[k]).first + 8 * spans[k].count
                        <= u64::MAX,
                forall|k: int|
                    0 <= k < j ==> (#[trigger] spans[k + 1]).covers(
                        all[k].base as int,
                        all[k].base + all[k].size,
                    ),
            decreases all.len() - j,
        {
            let a: Allocation = all[j];
            proof {
                assert(all@.contains(a));
            }
            spans.push(word_span(a.base, a.base + a.size));
            j = j + 1;
        }
        proof {
            assert forall|a: int|
                in_spans(spans@, a) <==> is_word_in(low as int, high as int, a) || exists|b: u64|
                 #[trigger]
                    self@.blocks.contains_key(b) && is_word_in(
                        b as int,
                        b + self@.blocks[b].size,
                        a,
                    ) by {
                if in_spans(spans@, a) {
                    let (k, i) = choose|k: int, i: int|
                        0 <= k < spans.len() && 0 <= i < spans[k].count && #[trigger] spans[k].addr(
                            i,
                        ) == a;
                    if k > 0 {
                        let block = all[k - 1];
                        assert(spans[(k - 1) + 1].covers(
                            block.base as int,
                            block.base + block.size,
                        ));
                        assert(all@.contains(block));
                    }
                }
                if is_word_in(low as int, high as int, a) {
                    assert(spans[0].addr(spans[0].index_of(a)) == a);
                }
                if exists|b: u64| #[trigger]
                    self@.blocks.contains_key(b) && is_word_in(
                        b as int,
                        b + self@.blocks[b].size,
                        a,
                    ) {
                    let b = choose|b: u64| #[trigger]
                        self@.blocks.contains_key(b) && is_word_in(
                            b as int,
                            b + self@.blocks[b].size,
                            a,
                        );
                    let block = self@.blocks[b];
                    assert(all@.contains(block));
                    let k = choose|k: int| 0 <= k < all@.len() && all@[k] == block;
                    assert(spans[k + 1].addr(spans[k + 1].index_of(a)) == a);
                }
            }
        }
        spans
    }

    /// Marks the block at `p`, if `p` is the base of a registered block
    /// that carries no mark yet, and puts it on the work list of blocks
    /// whose bodies are still to be scanned.
    fn mark(&mut self, p: u64, pending: &mut Vec<u64>)
        requires
            records_ok(old(self).allocations@),
        ensures
            records_ok(final(self).allocations@),
            marks_added(
                old(self).allocations@,
                final(self).allocations@,
                old(pending)@,
                final(pending)@,
                set![p],
            ),
            final(self).global_roots == old(self).global_roots,
            final(self).bytes_allocated == old(self).bytes_allocated,
            final(self).threshold == old(self).threshold,
    {
        let ghost pre = self.allocations@;
        let ghost pre_pending = pending@;
        let fresh: Option<Allocation> = match self.allocations.get(&p) {
            Some(a) => if a.marked {
                None
            } else {
                Some(*a)
            },
            None => None,
        };
        match fresh {
            Some(a) => {
                self.allocations.insert(p, Allocation { marked: true, ..a });
                pending.push(p);
                proof {
                    let post = self.allocations@;
                    assert(post.dom() =~= pre.dom());
                    assert(unmarked_set(post) =~= unmarked_set(pre).remove(p));
                    lemma_set_subset_finite(pre.dom(), unmarked_set(pre));
                    assert(pending@[pre_pending.len() as int] == p);
                }
            },
            None => {
                proof {
                    lemma_marks_added_none(pre, pre_pending, set![p]);
                }
            },
        }
    }

    /// Scans the aligned words between `start` and `end`, whichever of the
    /// two is the lower, and marks each registered block whose base one of
    /// them holds.
    fn scan_range(
        &mut self,
        memory: &HashMap<u64, u64>,
        start: u64,
        end: u64,
        pending: &mut Vec<u64>,
    )
        requires
            records_ok(old(self).allocations@),
        ensures
            records_ok(final(self).allocations@),
            marks_added(
                old(self).allocations@,
                final(self).allocations@,
                old(pending)@,
                final(pending)@,
                range_words(memory@, lower(start, end) as int, upper(start, end) as int),
            ),
            final(self).global_roots == old(self).global_roots,
            final(self).bytes_allocated == old(self).bytes_allocated,
            final(self).threshold == old(self).threshold,
    {
        let ghost pre = self.allocations@;
        let ghost pre_pending = pending@;
        let (low, high) = order_ends(start, end);
        let span = word_span(low, high);
        let mut i: u64 = 0;
        proof {
            lemma_marks_added_none(pre, pre_pending, span_words(memory@, span, 0));
        }
        while i < span.count
            invariant
                i <= span.count,
                span.first + 8 * span.count <= u64::MAX,
                records_ok(self.allocations@),
                marks_added(
                    pre,
                    self.allocations@,
                    pre_pending,
                    pending@,
                    span_words(memory@, span, i as int),
                ),
                self.global_roots == old(self).global_roots,
                self.bytes_allocated == old(self).bytes_allocated,
                self.threshold == old(self).threshold,
            decreases span.count - i,
        {
            let addr: u64 = span.first + 8 * i;
            let value = read_word(memory, addr);
            let ghost mid = self.allocations@;
            let ghost mid_pending = pending@;
            self.mark(value, pending);
            proof {
                let seen = span_words(memory@, span, i as int);
                lemma_marks_added_twice(
                    pre,
                    mid,
                    self.allocations@,
                    pre_pending,
                    mid_pending,
                    pending@,
                    seen,
                    set![value],
                );
                assert(span.addr(i as int) as u64 == addr);
            }
            i = i + 1;
        }
        proof {
            lemma_span_words_cover(memory@, span, low as int, high as int);
        }
    }

    /// Marks the blocks whose bases the registered root slots hold.
    fn mark_roots(&mut self, memory: &HashMap<u64, u64>, pending: &mut Vec<u64>)
        requires
            records_ok(old(self).allocations@),
        ensures
            records_ok(final(self).allocations@),
            marks_added(
                old(self).allocations@,
                final(self).allocations@,
                old(pending)@,
                final(pending)@,
                root_values(memory@, old(self).global_roots@),
            ),
            final(self).global_roots == old(self).global_roots,
            final(self).bytes_allocated == old(self).bytes_allocated,
            final(self).threshold == old(self).threshold,
    {
        let ghost pre = self.allocations@;
        let ghost pre_pending = pending@;
        let ghost roots = self.global_roots@;
        let mut i: usize = 0;
        proof {
            lemma_marks_added_none(pre, pre_pending, root_values(memory@, roots.take(0)));
        }
        while i < self.global_roots.len()
            invariant
                i <= self.global_roots.len(),
                records_ok(self.allocations@),
                marks_added(
                    pre,
                    self.allocations@,
                    pre_pending,
                    pending@,
                    root_values(memory@, roots.take(i as int)),
                ),
                roots == self.global_roots@,
                self.global_roots == old(self).global_roots,
                self.bytes_allocated == old(self).bytes_allocated,
                self.threshold == old(self).threshold,
            decreases self.global_roots.len() - i,
        {
            let slot: u64 = self.global_roots[i];
            let value = read_word(memory, slot);
            let ghost mid = self.allocations@;
            let ghost mid_pending = pending@;
            self.mark(value, pending);
            proof {
                let seen = root_values(memory@, roots.take(i as int));
                lemma_marks_added_twice(
                    pre,
                    mid,
                    self.allocations@,
                    pre_pending,
                    mid_pending,
                    pending@,
                    seen,
                    set![value],
                );
                let next = root_values(memory@, roots.take(i + 1));
                assert forall|v: u64| seen.union(set![value]).contains(v) implies next.contains(
                    v,
                ) by {
                    if seen.contains(v) {
                    } else {
                        assert(word_at(memory@, roots.take(i + 1)[i as int]) == v);
                    }
                }
            }
            i = i + 1;
        }
        assert(roots.take(i as int) =~= roots);
    }

    /// Releases the records of the unmarked blocks and clears the marks of
    /// the others.  Returns the released records, for their memory to be
    /// given back.
    fn sweep(&mut self) -> (freed: Vec<Allocation>)
        requires
            records_ok(old(self).allocations@),
            old(self).bytes_allocated == total_size(old(self).allocations@),
        ensures
            final(self).allocations@ == swept(
                old(self).allocations@,
                old(self).allocations@.dom(),
            ),
            final(self).bytes_allocated == total_size(final(self).allocations@),
            final(self).global_roots == old(self).global_roots,
            final(self).threshold == old(self).threshold,
            forall|i: int, j: int|
                0 <= i < j < freed.len() ==> freed[i].base != freed[j].base,
            forall|a: Allocation|
                freed@.contains(a) <==> old(self).allocations@.contains_key(a.base) && old(
                    self,
                ).allocations@[a.base] == a && !a.marked,
    {
        let ghost pre = self.allocations@;
        let bases = bases_of(&self.allocations);
        let mut freed: Vec<Allocation> = Vec::new();
        let mut i: usize = 0;
        while i < bases.len()
            invariant
                i <= bases.len(),
                bases@.no_duplicates(),
                bases@.to_set() == pre.dom(),
                records_ok(pre),
                self.allocations@ == swept(pre, bases@.take(i as int).to_set()),
                self.bytes_allocated == total_size(self.allocations@),
                self.global_roots == old(self).global_roots,
                self.threshold == old(self).threshold,
                forall|x: int, y: int|
                    0 <= x < y < freed.len() ==> freed[x].base != freed[y].base,
                forall|a: Allocation|
                    freed@.contains(a) <==> bases@.take(i as int).contains(a.base) && pre[a.base]
                        == a && !a.marked,
            decreases bases.len() - i,
        {
            let base: u64 = bases[i];
            let ghost done = bases@.take(i as int).to_set();
            let ghost cur = self.allocations@;
            let ghost old_freed = freed@;
            proof {
                assert(cur.dom().finite()) by {
                    lemma_set_subset_finite(pre.dom(), cur.dom());
                }
                lemma_total_size_remove(cur, base);
                assert(bases@.take(i + 1) =~= bases@.take(i as int).push(base));
                bases@.take(i as int).lemma_push_to_set_commute(base);
            }
            let found: Option<Allocation> = match self.allocations.get(&base) {
                Some(a) => Some(*a),
                None => None,
            };
            match found {
                Some(a) => {
                    if a.marked {
                        self.allocations.insert(base, Allocation { marked: false, ..a });
                        proof {
                            lemma_total_size_insert(cur, base, cleared(a));
                        }
                    } else {
                        self.allocations.remove(&base);
                        self.bytes_allocated = self.bytes_allocated - a.size;
                        freed.push(a);
                        proof {
                            assert(self.allocations@ =~= swept(pre, done.insert(base)));
                        }
                    }
                },
                None => {},
            }
            proof {
                assert forall|a: Allocation|
                    freed@.contains(a) <==> bases@.take(i + 1).contains(a.base) && pre[a.base]
                        == a && !a.marked by {
                    if !pre[base].marked {
                        assert(freed@[old_freed.len() as int] == pre[base]);
                    }
                    if freed@.contains(a) {
                        let j = choose|j: int| 0 <= j < freed@.len() && freed@[j] == a;
                        if j < old_freed.len() {
                            assert(old_freed.contains(a));
                        }
                    }
                    if bases@.take(i + 1).contains(a.base) && pre[a.base] == a && !a.marked {
                        if a.base != base {
                            assert(old_freed.contains(a));
                            let j = choose|j: int| 0 <= j < old_freed.len() && old_freed[j] == a;
                            assert(freed@[j] == a);
                        }
                    }
                }
                assert forall|x: int, y: int| 0 <= x < y < freed.len() implies freed[x].base
                    != freed[y].base by {
                    if y == old_freed.len() {
                        assert(old_freed.contains(old_freed[x]));
                    }
                }
            }
            i = i + 1;
        }
        proof {
            assert(bases@.take(i as int) =~= bases@);
        }
        freed
    }
}

/// Creates the collector.
pub fn sydney_gc_init() -> (gc: GcState)
    ensures
        gc@ == GcView::initial(),
        gc.wf(),
{
    GcState::new()
}

/// Decides how a request for `size` bytes is served.  Nothing is changed:
/// a non-positive size yields the null pointer, any other size is to be
/// allocated, after a full collection if the live bytes have reached the
/// threshold.
pub fn sydney_gc_alloc(gc: &GcState, size: i64) -> (action: AllocAction)
    ensures
        action == alloc_action(gc@, size),
{
    if size <= 0 {
        AllocAction::Null
    } else {
        AllocAction::Allocate {
            bytes: size as u64,
            collect_first: gc.bytes_allocated >= gc.threshold,
        }
    }
}

/// Runs a full collection over a snapshot of the memory.
///
/// The seeds are the values that the registered root slots hold and the
/// values of the aligned words of the stack, which lies between `stack_top`
/// and `stack_base`, whichever is the lower.  A block survives if and only
/// if a seed is its base, or an aligned word in the body of a surviving
/// block is.  The records of all other blocks leave the registry and are
/// returned, each once, for their memory to be given back.
pub fn sydney_gc_collect(
    gc: &mut GcState,
    memory: &HashMap<u64, u64>,
    stack_top: u64,
    stack_base: u64,
) -> (freed: Vec<Allocation>)
    requires
        old(gc).wf(),
    ensures
        final(gc).wf(),
        final(gc)@ == collected(old(gc)@, memory@, stack_top, stack_base),
        forall|i: int, j: int| 0 <= i < j < freed.len() ==> freed[i].base != freed[j].base,
        forall|a: Allocation|
            freed@.contains(a) <==> old(gc)@.blocks.contains_key(a.base) && old(gc)@.blocks[a.base]
                == a && !final(gc)@.blocks.contains_key(a.base),
{
    let ghost orig = gc.allocations@;
    let ghost mem = memory@;
    let ghost on_stack = range_words(
        mem,
        lower(stack_top, stack_base) as int,
        upper(stack_top, stack_base) as int,
    );
    let ghost in_roots = root_values(mem, gc.global_roots@);
    let ghost from = seeds(mem, gc.global_roots@, stack_top, stack_base);
    let mut pending: Vec<u64> = Vec::new();
    gc.mark_roots(memory, &mut pending);
    let ghost mid = gc.allocations@;
    let ghost mid_pending = pending@;
    gc.scan_range(memory, stack_top, stack_base, &mut pending);
    let ghost scanned: Set<u64> = Set::empty();
    proof {
        lemma_marks_added_twice(
            orig,
            mid,
            gc.allocations@,
            Seq::empty(),
            mid_pending,
            pending@,
            in_roots,
            on_stack,
        );
        lemma_seeded(orig, gc.allocations@, mem, from, pending@);
    }
    while pending.len() > 0
        invariant
            records_ok(gc.allocations@),
            records_ok(orig),
            mark_inv(orig, gc.allocations@, mem, from, pending@, scanned),
            mem == memory@,
            gc.global_roots == old(gc).global_roots,
            gc.bytes_allocated == old(gc).bytes_allocated,
            gc.threshold == old(gc).threshold,
        decreases unmarked_set(gc.allocations@).len() + pending.len(),
    {
        let ghost before = pending@;
        let ghost cur = gc.allocations@;
        let top: Option<u64> = pending.pop();
        let base: u64 = match top {
            Some(b) => b,
            None => 0,
        };
        proof {
            assert(before =~= pending@.push(base));
        }
        let size: u64 = match gc.allocations.get(&base) {
            Some(a) => a.size,
            None => 0,
        };
        let ghost rest = pending@;
        gc.scan_range(memory, base, base + size, &mut pending);
        proof {
            lemma_scanned(orig, cur, gc.allocations@, mem, from, rest, pending@, scanned, base);
            scanned = scanned.insert(base);
        }
    }
    proof {
        lemma_marked_are_survivors(orig, gc.allocations@, mem, from, scanned);
        lemma_same_blocks_same_total(orig, gc.allocations@);
    }
    gc.sweep()
}

/// Registers `slot`, the address of a location that holds null or a block's
/// base, as a root for every later collection.
pub fn sydney_gc_add_global_root(gc: &mut GcState, slot: u64)
    ensures
        final(gc)@ == old(gc)@.with_root(slot),
{
    gc.global_roots.push(slot);
}

/// Shuts the collector down: every block leaves the registry, whether
/// reachable or not, the root set is emptied and the byte count is zero.
/// The records of the blocks are returned, each once, for their memory to
/// be given back.
pub fn sydney_gc_shutdown(gc: &mut GcState) -> (freed: Vec<Allocation>)
    requires
        old(gc).wf(),
    ensures
        final(gc).wf(),
        final(gc)@ == old(gc)@.drained(),
        forall|i: int, j: int| 0 <= i < j < freed.len() ==> freed[i].base != freed[j].base,
        forall|a: Allocation|
            freed@.contains(a) <==> old(gc)@.blocks.contains_key(a.base) && old(gc)@.blocks[a.base]
                == a,
{
    let freed = gc.live_blocks();
    gc.allocations.clear();
    gc.global_roots.clear();
    gc.bytes_allocated = 0;
    freed
}

} // verus!
