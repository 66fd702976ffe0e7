//! Bookkeeping for buffers handed across the module boundary.
//!
//! Every buffer the module gives out is recorded here as a `(handle, size)`
//! pair, so that teardown can reclaim all of them even when individual
//! release calls were skipped. The arena never touches the buffers
//! themselves; it only tracks which ones are live.

use vstd::prelude::*;

verus! {

/// One buffer currently owned by the host: an opaque handle and its size in bytes.
#[derive(Clone, Copy, PartialEq, Eq, Structural, Debug)]
pub struct Block {
    pub handle: usize,
    pub size: usize,
}

/// Registry of all live buffers, plus the permanent "already swept" flag
/// set by the first global teardown.
pub struct Arena {
    blocks: Vec<Block>,
    swept: bool,
}

impl Arena {
    /// The sequence of live blocks, in registration order.
    pub closed spec fn registry(&self) -> Seq<Block> {
        self.blocks@
    }

    /// Whether the one-shot global sweep has already run.
    pub closed spec fn swept(&self) -> bool {
        self.swept
    }

    pub fn new() -> (a: Arena)
        ensures
            a.registry() == Seq::<Block>::empty(),
            !a.swept(),
    {
        Arena { blocks: Vec::new(), swept: false }
    }

    /// Record a freshly allocated buffer.
    pub fn register(&mut self, handle: usize, size: usize)
        ensures
            final(self).registry() == old(self).registry().push(Block { handle, size }),
            final(self).swept() == old(self).swept(),
    {
        self.blocks.push(Block { handle, size });
    }

    /// How many blocks are currently registered.
    pub fn block_count(&self) -> (n: usize)
        ensures
            n == self.registry().len(),
    {
        self.blocks.len()
    }

    /// Whether a block with this handle and size is currently registered.
    pub fn is_registered(&self, handle: usize, size: usize) -> (r: bool)
        ensures
            r == contains_block(self.registry(), handle, size),
    {
        let mut i: usize = 0;
        while i < self.blocks.len()
            invariant
                i <= self.blocks@.len(),
                forall|j: int| 0 <= j < i ==> !block_matches(self.blocks@[j], handle, size),
            decreases self.blocks@.len() - i,
        {
            if self.blocks[i].handle == handle && self.blocks[i].size == size {
                return true;
            }
            i = i + 1;
        }
        false
    }

    /// Drop the first registered block matching this handle and size, if
    /// one exists; an unknown pair leaves the registry unchanged, a
    /// deliberate tolerance for stale host-side bookkeeping.
    pub fn deallocate(&mut self, handle: usize, size: usize) -> (removed: bool)
        ensures
            final(self).registry() == remove_first(old(self).registry(), handle, size),
            final(self).swept() == old(self).swept(),
            removed == contains_block(old(self).registry(), handle, size),
    {
        let mut i: usize = 0;
        while i < self.blocks.len()
            invariant
                i <= self.blocks@.len(),
                *self == *old(self),
                forall|j: int| 0 <= j < i ==> !block_matches(self.blocks@[j], handle, size),
            decreases self.blocks@.len() - i,
        {
            if self.blocks[i].handle == handle && self.blocks[i].size == size {
                self.blocks.remove(i);
                proof {
                    lemma_remove_first_at(old(self).registry(), handle, size, i as int);
                }
                return true;
            }
            i = i + 1;
        }
        proof {
            lemma_remove_first_absent(self.registry(), handle, size);
        }
        false
    }

    /// Release every registered block at once, and only once: the first
    /// call empties the registry and returns what it held; every later
    /// call is a no-op that returns nothing.
    pub fn deallocate_all(&mut self) -> (freed: Vec<Block>)
        ensures
            final(self).registry() == swept_registry(old(self).registry(), old(self).swept()),
            final(self).swept(),
            freed@ == swept_freed(old(self).registry(), old(self).swept()),
    {
        if self.swept {
            return Vec::new();
        }
        let mut freed: Vec<Block> = Vec::new();
        let mut i: usize = 0;
        while i < self.blocks.len()
            invariant
                i <= self.blocks@.len(),
                *self == *old(self),
                freed@ == self.blocks@.take(i as int),
            decreases self.blocks@.len() - i,
        {
            freed.push(self.blocks[i]);
            i = i + 1;
        }
        proof {
            assert(self.blocks@.take(self.blocks@.len() as int) =~= self.blocks@);
        }
        self.blocks.clear();
        self.swept = true;
        freed
    }
}

/// A block in the registry matches a handle/size pair when both agree.
pub open spec fn block_matches(b: Block, handle: usize, size: usize) -> bool {
    b.handle == handle && b.size == size
}

/// Some block in `s` matches the handle/size pair.
pub open spec fn contains_block(s: Seq<Block>, handle: usize, size: usize) -> bool {
    exists|i: int| 0 <= i < s.len() && block_matches(s[i], handle, size)
}

/// `s` without its first block matching the handle/size pair; `s` itself
/// when none matches.
pub open spec fn remove_first(s: Seq<Block>, handle: usize, size: usize) -> Seq<Block>
    decreases s.len(),
{
    if s.len() == 0 {
        s
    } else if block_matches(s[0], handle, size) {
        s.skip(1)
    } else {
        seq![s[0]] + remove_first(s.skip(1), handle, size)
    }
}

/// The registry a global sweep leaves behind.
pub open spec fn swept_registry(blocks: Seq<Block>, swept: bool) -> Seq<Block> {
    if swept {
        blocks
    } else {
        Seq::<Block>::empty()
    }
}

/// The blocks a global sweep hands back for release.
pub open spec fn swept_freed(blocks: Seq<Block>, swept: bool) -> Seq<Block> {
    if swept {
        Seq::<Block>::empty()
    } else {
        blocks
    }
}

proof fn lemma_remove_first_absent(s: Seq<Block>, handle: usize, size: usize)
    requires
        forall|j: int| 0 <= j < s.len() ==> !block_matches(s[j], handle, size),
    ensures
        remove_first(s, handle, size) == s,
    decreases s.len(),
{
    if s.len() == 0 {
    } else {
        assert(!block_matches(s[0], handle, size));
        assert forall|j: int| 0 <= j < s.skip(1).len() implies !block_matches(
            s.skip(1)[j],
            handle,
            size,
        ) by {
            assert(s.skip(1)[j] == s[j + 1]);
        }
        lemma_remove_first_absent(s.skip(1), handle, size);
        assert(seq![s[0]] + s.skip(1) =~= s);
    }
}

proof fn lemma_remove_first_at(s: Seq<Block>, handle: usize, size: usize, k: int)
    requires
        0 <= k < s.len(),
        block_matches(s[k], handle, size),
        forall|j: int| 0 <= j < k ==> !block_matches(s[j], handle, size),
    ensures
        remove_first(s, handle, size) == s.remove(k),
    decreases k,
{
    if k == 0 {
        assert(s.skip(1) =~= s.remove(0));
    } else {
        assert(!block_matches(s[0], handle, size));
        let t = s.skip(1);
        assert(t[k - 1] == s[k]);
        assert forall|j: int| 0 <= j < k - 1 implies !block_matches(t[j], handle, size) by {
            assert(t[j] == s[j + 1]);
        }
        lemma_remove_first_at(t, handle, size, k - 1);
        assert(seq![s[0]] + t.remove(k - 1) =~= s.remove(k));
    }
}

/// A global sweep is idempotent: whatever the state was, running the sweep
/// on the state a sweep left behind changes nothing and frees nothing.
pub proof fn lemma_deallocate_all_idempotent(blocks: Seq<Block>, swept: bool)
    ensures
        swept_registry(swept_registry(blocks, swept), true) == swept_registry(blocks, swept),
        swept_freed(swept_registry(blocks, swept), true) == Seq::<Block>::empty(),
{
}


/// One registry operation, as `register` and `deallocate` describe it in
/// their contracts.
pub enum ArenaOp {
    Register { handle: usize, size: usize },
    Deallocate { handle: usize, size: usize },
}

/// The handle an operation names.
pub open spec fn op_handle(op: ArenaOp) -> usize {
    match op {
        ArenaOp::Register { handle, .. } => handle,
        ArenaOp::Deallocate { handle, .. } => handle,
    }
}

/// The size an operation names.
pub open spec fn op_size(op: ArenaOp) -> usize {
    match op {
        ArenaOp::Register { size, .. } => size,
        ArenaOp::Deallocate { size, .. } => size,
    }
}

/// The registration that hands out exactly this block.
pub open spec fn register_of(b: Block) -> ArenaOp {
    ArenaOp::Register { handle: b.handle, size: b.size }
}

/// The deallocation that names exactly this block.
pub open spec fn deallocate_of(b: Block) -> ArenaOp {
    ArenaOp::Deallocate { handle: b.handle, size: b.size }
}

/// The registry one operation leaves behind, exactly as the contracts of
/// `register` and `deallocate` state it.
pub open spec fn apply_op(blocks: Seq<Block>, op: ArenaOp) -> Seq<Block> {
    match op {
        ArenaOp::Register { handle, size } => blocks.push(Block { handle, size }),
        ArenaOp::Deallocate { handle, size } => remove_first(blocks, handle, size),
    }
}

/// The registry a whole operation sequence leaves behind, applied in order.
pub open spec fn apply_ops(blocks: Seq<Block>, ops: Seq<ArenaOp>) -> Seq<Block>
    decreases ops.len(),
{
    if ops.len() == 0 {
        blocks
    } else {
        apply_op(apply_ops(blocks, ops.drop_last()), ops.last())
    }
}

/// Every operation in the sequence is a registration.
pub open spec fn all_registers(ops: Seq<ArenaOp>) -> bool {
    forall|i: int| 0 <= i < ops.len() ==> ops[i] is Register
}

/// No two registrations in the sequence hand out the same handle.
pub open spec fn distinct_register_handles(ops: Seq<ArenaOp>) -> bool {
    forall|i: int, j: int|
        0 <= i < j < ops.len() && ops[i] is Register && ops[j] is Register ==> op_handle(ops[i])
            != op_handle(ops[j])
}

/// Every deallocation in the sequence names a pair that some earlier
/// registration handed out.
pub open spec fn deallocates_only_registered(ops: Seq<ArenaOp>) -> bool {
    forall|i: int|
        0 <= i < ops.len() && ops[i] is Deallocate ==> exists|j: int|
            0 <= j < i && ops[j] is Register && op_handle(ops[j]) == op_handle(#[trigger] ops[i])
                && op_size(ops[j]) == op_size(ops[i])
}

/// The block was registered somewhere in the sequence.
pub open spec fn registered_in(ops: Seq<ArenaOp>, b: Block) -> bool {
    ops.contains(register_of(b))
}

/// The block was deallocated somewhere in the sequence.
pub open spec fn deallocated_in(ops: Seq<ArenaOp>, b: Block) -> bool {
    ops.contains(deallocate_of(b))
}

/// No two registry entries share a handle.
pub open spec fn distinct_handles(blocks: Seq<Block>) -> bool {
    forall|i: int, j: int| 0 <= i < j < blocks.len() ==> blocks[i].handle != blocks[j].handle
}

/// Registering only — no deallocation in between — appends exactly one
/// entry per call: `k` registrations leave the old registry followed by
/// the `k` registered blocks, in call order.
pub proof fn lemma_register_only_grows(blocks: Seq<Block>, ops: Seq<ArenaOp>)
    requires
        all_registers(ops),
    ensures
        apply_ops(blocks, ops) == blocks + ops.map_values(
            |op: ArenaOp| Block { handle: op_handle(op), size: op_size(op) },
        ),
        apply_ops(blocks, ops).len() == blocks.len() + ops.len(),
    decreases ops.len(),
{
    let m = ops.map_values(|op: ArenaOp| Block { handle: op_handle(op), size: op_size(op) });
    if ops.len() == 0 {
        assert(blocks + m =~= blocks);
    } else {
        let front = ops.drop_last();
        let mf = front.map_values(
            |op: ArenaOp| Block { handle: op_handle(op), size: op_size(op) },
        );
        assert forall|i: int| 0 <= i < front.len() implies front[i] is Register by {
            assert(front[i] == ops[i]);
        }
        lemma_register_only_grows(blocks, front);
        assert(ops.last() is Register);
        assert(m[ops.len() - 1] == (Block {
            handle: op_handle(ops.last()),
            size: op_size(ops.last()),
        }));
        assert((blocks + mf).push(m[ops.len() - 1]) =~= blocks + m);
    }
}

proof fn lemma_contains_snoc(ops: Seq<ArenaOp>, x: ArenaOp)
    requires
        ops.len() > 0,
    ensures
        ops.contains(x) <==> (ops.drop_last().contains(x) || ops.last() == x),
{
    let front = ops.drop_last();
    if ops.contains(x) {
        let i = choose|i: int| 0 <= i < ops.len() && ops[i] == x;
        if i < ops.len() - 1 {
            assert(front[i] == x);
        }
    }
    if front.contains(x) {
        let i = choose|i: int| 0 <= i < front.len() && front[i] == x;
        assert(ops[i] == x);
    }
    if ops.last() == x {
        assert(ops[ops.len() - 1] == x);
    }
}

proof fn lemma_remove_first_membership(s: Seq<Block>, handle: usize, size: usize)
    requires
        distinct_handles(s),
    ensures
        distinct_handles(remove_first(s, handle, size)),
        forall|b: Block|
            #[trigger] remove_first(s, handle, size).contains(b) <==> (s.contains(b) && b != (Block {
                handle,
                size,
            })),
{
    let m = Block { handle, size };
    if contains_block(s, handle, size) {
        let k = choose|k: int| 0 <= k < s.len() && block_matches(s[k], handle, size);
        assert forall|j: int| 0 <= j < k implies !block_matches(s[j], handle, size) by {
            if block_matches(s[j], handle, size) {
                assert(s[j].handle == s[k].handle);
            }
        }
        lemma_remove_first_at(s, handle, size, k);
        let r = s.remove(k);
        assert(s[k] == m);
        assert forall|i: int, j: int| 0 <= i < j < r.len() implies r[i].handle != r[j].handle by {
            let i2: int = if i < k { i } else { i + 1 };
            let j2: int = if j < k { j } else { j + 1 };
            assert(r[i] == s[i2]);
            assert(r[j] == s[j2]);
        }
        assert forall|b: Block| r.contains(b) implies (s.contains(b) && b != m) by {
            let i = choose|i: int| 0 <= i < r.len() && r[i] == b;
            let i2: int = if i < k { i } else { i + 1 };
            assert(r[i] == s[i2]);
            if b == m {
                assert(s[i2].handle == s[k].handle);
            }
        }
        assert forall|b: Block| s.contains(b) && b != m implies r.contains(b) by {
            let i = choose|i: int| 0 <= i < s.len() && s[i] == b;
            if i < k {
                assert(r[i] == s[i]);
            } else {
                assert(i != k);
                assert(r[i - 1] == s[i]);
            }
        }
    } else {
        assert forall|j: int| 0 <= j < s.len() implies !block_matches(s[j], handle, size) by {
            if block_matches(s[j], handle, size) {
                assert(contains_block(s, handle, size));
            }
        }
        lemma_remove_first_absent(s, handle, size);
        assert forall|b: Block| s.contains(b) implies b != m by {
            let i = choose|i: int| 0 <= i < s.len() && s[i] == b;
            if b == m {
                assert(block_matches(s[i], handle, size));
                assert(contains_block(s, handle, size));
            }
        }
    }
}

proof fn lemma_front_preconditions(ops: Seq<ArenaOp>)
    requires
        ops.len() > 0,
        distinct_register_handles(ops),
        deallocates_only_registered(ops),
    ensures
        distinct_register_handles(ops.drop_last()),
        deallocates_only_registered(ops.drop_last()),
{
    let front = ops.drop_last();
    assert forall|i: int, j: int|
        0 <= i < j < front.len() && front[i] is Register && front[j] is Register implies op_handle(
        front[i],
    ) != op_handle(front[j]) by {
        assert(front[i] == ops[i]);
        assert(front[j] == ops[j]);
    }
    assert forall|i: int| 0 <= i < front.len() && front[i] is Deallocate implies exists|j: int|
        0 <= j < i && front[j] is Register && op_handle(front[j]) == op_handle(#[trigger] front[i])
            && op_size(front[j]) == op_size(front[i]) by {
        assert(front[i] == ops[i]);
        let j = choose|j: int|
            0 <= j < i && ops[j] is Register && op_handle(ops[j]) == op_handle(ops[i]) && op_size(
                ops[j],
            ) == op_size(ops[i]);
        assert(front[j] == ops[j]);
        assert(0 <= j < i && front[j] is Register && op_handle(front[j]) == op_handle(front[i])
            && op_size(front[j]) == op_size(front[i]));
    }
}

proof fn lemma_step_register(ops: Seq<ArenaOp>, mid: Seq<Block>)
    requires
        ops.len() > 0,
        ops.last() is Register,
        distinct_register_handles(ops),
        deallocates_only_registered(ops),
        distinct_handles(mid),
        forall|b: Block|
            mid.contains(b) <==> (registered_in(ops.drop_last(), b) && !deallocated_in(
                ops.drop_last(),
                b,
            )),
    ensures
        distinct_handles(apply_op(mid, ops.last())),
        forall|b: Block|
            apply_op(mid, ops.last()).contains(b) <==> (registered_in(ops, b) && !deallocated_in(
                ops,
                b,
            )),
{
    let front = ops.drop_last();
    let n = ops.len() - 1;
    let last = ops.last();
    let b0 = Block { handle: op_handle(last), size: op_size(last) };
    let result = apply_op(mid, last);
    assert(last == register_of(b0));
    assert(result == mid.push(b0));

    // The handle just handed out is fresh with respect to every live block.
    assert forall|x: Block| mid.contains(x) implies x.handle != b0.handle by {
        assert(registered_in(front, x));
        let j = choose|j: int| 0 <= j < front.len() && front[j] == register_of(x);
        assert(ops[j] == front[j]);
        assert(ops[j] is Register && op_handle(ops[j]) == x.handle);
        assert(ops[n] is Register && op_handle(ops[n]) == b0.handle);
    }
    assert forall|i: int, j: int|
        0 <= i < j < result.len() implies result[i].handle != result[j].handle by {
        if j < mid.len() {
            assert(result[i] == mid[i]);
            assert(result[j] == mid[j]);
        } else {
            assert(result[j] == b0);
            assert(result[i] == mid[i]);
            assert(mid.contains(mid[i]));
        }
    }

    // The fresh pair cannot already have been deallocated.
    assert(!deallocated_in(front, b0)) by {
        if deallocated_in(front, b0) {
            let i = choose|i: int| 0 <= i < front.len() && front[i] == deallocate_of(b0);
            assert(ops[i] == front[i]);
            assert(ops[i] is Deallocate);
            let j = choose|j: int|
                0 <= j < i && ops[j] is Register && op_handle(ops[j]) == op_handle(ops[i])
                    && op_size(ops[j]) == op_size(ops[i]);
            assert(ops[j] is Register && ops[n] is Register && j < n);
            assert(op_handle(ops[j]) == op_handle(ops[n]));
        }
    }

    assert forall|b: Block|
        result.contains(b) <==> (registered_in(ops, b) && !deallocated_in(ops, b)) by {
        lemma_contains_snoc(ops, register_of(b));
        lemma_contains_snoc(ops, deallocate_of(b));
        assert(last != deallocate_of(b));
        assert((last == register_of(b)) <==> (b == b0));
        assert(result.contains(b) <==> (mid.contains(b) || b == b0)) by {
            if result.contains(b) {
                let i = choose|i: int| 0 <= i < result.len() && result[i] == b;
                if i < mid.len() {
                    assert(mid[i] == b);
                }
            }
            if mid.contains(b) {
                let i = choose|i: int| 0 <= i < mid.len() && mid[i] == b;
                assert(result[i] == b);
            }
            if b == b0 {
                assert(result[mid.len() as int] == b);
            }
        }
    }
}

proof fn lemma_step_deallocate(ops: Seq<ArenaOp>, mid: Seq<Block>)
    requires
        ops.len() > 0,
        ops.last() is Deallocate,
        distinct_handles(mid),
        forall|b: Block|
            mid.contains(b) <==> (registered_in(ops.drop_last(), b) && !deallocated_in(
                ops.drop_last(),
                b,
            )),
    ensures
        distinct_handles(apply_op(mid, ops.last())),
        forall|b: Block|
            apply_op(mid, ops.last()).contains(b) <==> (registered_in(ops, b) && !deallocated_in(
                ops,
                b,
            )),
{
    let last = ops.last();
    let b1 = Block { handle: op_handle(last), size: op_size(last) };
    let result = apply_op(mid, last);
    assert(last == deallocate_of(b1));
    assert(result == remove_first(mid, b1.handle, b1.size));
    lemma_remove_first_membership(mid, b1.handle, b1.size);
    assert forall|b: Block|
        result.contains(b) <==> (registered_in(ops, b) && !deallocated_in(ops, b)) by {
        lemma_contains_snoc(ops, register_of(b));
        lemma_contains_snoc(ops, deallocate_of(b));
        assert(last != register_of(b));
        assert((last == deallocate_of(b)) <==> (b == b1));
        assert(remove_first(mid, b1.handle, b1.size).contains(b) <==> (mid.contains(b) && b
            != (Block { handle: b1.handle, size: b1.size })));
        assert(result.contains(b) <==> (mid.contains(b) && b != b1));
    }
}

/// The allocation/registry invariant: starting from an empty registry,
/// after any interleaved sequence of registrations with pairwise fresh
/// handles and deallocations of previously registered pairs, the registry
/// holds exactly the blocks registered and not deallocated — each handle
/// at most once.
pub proof fn lemma_registry_tracks_ops(ops: Seq<ArenaOp>)
    requires
        distinct_register_handles(ops),
        deallocates_only_registered(ops),
    ensures
        distinct_handles(apply_ops(Seq::<Block>::empty(), ops)),
        forall|b: Block|
            apply_ops(Seq::<Block>::empty(), ops).contains(b) <==> (registered_in(ops, b)
                && !deallocated_in(ops, b)),
    decreases ops.len(),
{
    if ops.len() == 0 {
        let result = apply_ops(Seq::<Block>::empty(), ops);
        assert(result == Seq::<Block>::empty());
        assert forall|b: Block| !result.contains(b) && !registered_in(ops, b) by {
            if result.contains(b) {
                let i = choose|i: int| 0 <= i < result.len() && result[i] == b;
            }
            if registered_in(ops, b) {
                let i = choose|i: int| 0 <= i < ops.len() && ops[i] == register_of(b);
            }
        }
    } else {
        lemma_front_preconditions(ops);
        lemma_registry_tracks_ops(ops.drop_last());
        let mid = apply_ops(Seq::<Block>::empty(), ops.drop_last());
        if ops.last() is Register {
            lemma_step_register(ops, mid);
        } else {
            lemma_step_deallocate(ops, mid);
        }
    }
}

} // verus!
