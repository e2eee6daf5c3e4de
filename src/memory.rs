//! The memory manager: a partition of a flat address space into allocated and
//! free blocks, with first-fit allocation, splitting and coalescing.
use vstd::prelude::*;

use crate::ids::{pick_fresh_id, random_id};

verus! {

/// A contiguous range `[start, start + size)` of the address space.
#[derive(Clone, Copy, Debug, PartialEq, Eq)]
pub struct MemoryBlock {
    pub id: u128,
    pub start: usize,
    pub size: usize,
    pub allocated: bool,
    pub process_id: Option<u128>,
}

/// Why a memory operation failed.
#[derive(Clone, Copy, Debug, PartialEq, Eq, Structural)]
pub enum MemoryError {
    /// The request exceeds the total free space.
    OutOfMemory,
    /// Enough space is free in total, but no single free block is large enough.
    NoFit,
    /// No allocated block has the given identifier.
    BlockNotFound,
}

/// A summary of the state of a memory manager.
#[derive(Clone, Copy, Debug, PartialEq, Eq, Structural)]
pub struct MemoryStats {
    pub total_size: usize,
    pub free_space: usize,
    pub allocated_space: usize,
    pub total_blocks: usize,
    pub allocated_blocks: usize,
    pub free_blocks: usize,
}

/// Owns the blocks that partition `[0, total_size)`.
pub struct MemoryManager {
    pub total_size: usize,
    pub blocks: Vec<MemoryBlock>,
    pub free_space: usize,
}

/// The part of a block's size that counts as free.
pub open spec fn free_weight(b: MemoryBlock) -> nat {
    if b.allocated {
        0
    } else {
        b.size as nat
    }
}

/// The sum of the sizes of the blocks.
pub open spec fn total_of(s: Seq<MemoryBlock>) -> nat
    decreases s.len(),
{
    if s.len() == 0 {
        0
    } else {
        total_of(s.drop_last()) + s.last().size as nat
    }
}

/// The sum of the sizes of the free blocks.
pub open spec fn free_of(s: Seq<MemoryBlock>) -> nat
    decreases s.len(),
{
    if s.len() == 0 {
        0
    } else {
        free_of(s.drop_last()) + free_weight(s.last())
    }
}

/// The blocks are ordered by start, each one begins where the previous ends,
/// the first begins at 0 and the last ends at `total`.
pub open spec fn contiguous(s: Seq<MemoryBlock>, total: nat) -> bool {
    &&& s.len() > 0
    &&& s[0].start == 0
    &&& forall|i: int, j: int|
        #![trigger s[i], s[j]]
        0 <= i && j == i + 1 && j < s.len() ==> s[i].start + s[i].size == s[j].start
    &&& s.last().start + s.last().size == total
}

/// No two neighbouring blocks are both free.
pub open spec fn coalesced(s: Seq<MemoryBlock>) -> bool {
    forall|i: int, j: int| #![trigger s[i], s[j]] 0 <= i && j == i + 1 && j < s.len() ==> s[i].allocated || s[j].allocated
}

/// A block has an owner exactly when it is allocated.
pub open spec fn owners_consistent(s: Seq<MemoryBlock>) -> bool {
    forall|i: int| 0 <= i < s.len() ==> (#[trigger] s[i]).allocated == s[i].process_id.is_some()
}

/// No two blocks share an identifier.
pub open spec fn ids_unique(s: Seq<MemoryBlock>) -> bool {
    forall|i: int, j: int|
        0 <= i < s.len() && 0 <= j < s.len() && i != j ==> (#[trigger] s[i]).id != (#[trigger] s[j]).id
}

/// The allocated blocks, in address order.
pub open spec fn allocated_blocks(s: Seq<MemoryBlock>) -> Seq<MemoryBlock> {
    s.filter(|b: MemoryBlock| b.allocated)
}

/// Some allocated block has identifier `id`.
pub open spec fn holds_allocated(s: Seq<MemoryBlock>, id: u128) -> bool {
    exists|i: int| 0 <= i < s.len() && (#[trigger] s[i]).id == id && s[i].allocated
}

/// A block that can serve a request of `size`.
pub open spec fn fits(b: MemoryBlock, size: nat) -> bool {
    !b.allocated && b.size >= size
}

/// `i` is the first block, in address order, that can serve `size`.
pub open spec fn is_first_fit(s: Seq<MemoryBlock>, size: nat, i: int) -> bool {
    &&& 0 <= i < s.len()
    &&& fits(s[i], size)
    &&& forall|j: int| 0 <= j < i ==> !fits(#[trigger] s[j], size)
}

/// Block `b`, freed: no longer allocated and without an owner.
pub open spec fn freed_block(b: MemoryBlock) -> MemoryBlock {
    MemoryBlock { id: b.id, start: b.start, size: b.size, allocated: false, process_id: None }
}

/// Block `i` merged with its successor when that one is free.
pub open spec fn merge_next(s: Seq<MemoryBlock>, i: int) -> Seq<MemoryBlock> {
    if i + 1 < s.len() && !s[i + 1].allocated {
        merge_pair(s, i)
    } else {
        s
    }
}

/// Block `i` merged into its predecessor when that one is free.
pub open spec fn merge_prev(s: Seq<MemoryBlock>, i: int) -> Seq<MemoryBlock> {
    if 0 < i && !s[i - 1].allocated {
        merge_pair(s, i - 1)
    } else {
        s
    }
}

/// The blocks after freeing block `i`: it is marked free, then merged with a
/// free successor, then with a free predecessor.
pub open spec fn after_release(s: Seq<MemoryBlock>, i: int) -> Seq<MemoryBlock> {
    merge_prev(merge_next(s.update(i, freed_block(s[i])), i), i)
}

/// Freeing an allocated block and merging it with its free neighbours leaves
/// no two neighbours free.
proof fn lemma_release_coalesced(s: Seq<MemoryBlock>, total: nat, i: int)
    requires
        layout_ok(s, total),
        0 <= i < s.len(),
    ensures
        coalesced(after_release(s, i)),
{
    reveal(layout_ok);
    let t = s.update(i, freed_block(s[i]));
    let u = merge_next(t, i);
    // In `u`, every pair but the one ending at `i` has an allocated block,
    // and the block after `i`, if any, is allocated.
    assert(u.len() >= i + 1);
    assert(forall|k: int| 0 <= k < i ==> u[k] == s[k]);
    assert(!u[i].allocated);
    assert(i + 1 < u.len() ==> u[i + 1].allocated) by {
        if i + 1 < t.len() && !t[i + 1].allocated {
            if i + 2 < s.len() {
                assert(s[i + 1].allocated || s[i + 2].allocated);
                assert(u[i + 1] == s[i + 2]);
            }
        }
    }
    assert forall|x: int, z: int| #![trigger u[x], u[z]] 0 <= x && z == x + 1 && z < u.len() && x != i - 1
        implies u[x].allocated || u[z].allocated by {
        if x < i - 1 {
            assert(s[x].allocated || s[x + 1].allocated);
        } else if x > i {
            if i + 1 < t.len() && !t[i + 1].allocated {
                assert(u[x] == s[x + 1] && u[z] == s[x + 2]);
                assert(s[x + 1].allocated || s[x + 2].allocated);
            } else {
                assert(s[x].allocated || s[x + 1].allocated);
            }
        }
    }
    let v = merge_prev(u, i);
    if 0 < i && !u[i - 1].allocated {
        assert(forall|k: int| 0 <= k < i - 1 ==> v[k] == u[k]);
        assert(forall|k: int| i <= k < v.len() ==> v[k] == u[k + 1]);
        if i >= 2 {
            assert(s[i - 2].allocated || s[i - 1].allocated);
        }
        assert forall|x: int, z: int| #![trigger v[x], v[z]] 0 <= x && z == x + 1 && z < v.len() implies v[x].allocated
            || v[z].allocated by {
            if x < i - 2 {
                assert(u[x].allocated || u[x + 1].allocated);
            } else if x == i - 2 {
                assert(v[x] == s[i - 2]);
            } else if x == i - 1 {
                assert(v[z] == u[i + 1]);
            } else {
                assert(u[x + 1].allocated || u[x + 2].allocated);
            }
        }
    } else {
        assert forall|x: int, z: int| #![trigger v[x], v[z]] 0 <= x && z == x + 1 && z < v.len() implies v[x].allocated
            || v[z].allocated by {
            if x == i - 1 {
            } else {
                assert(u[x].allocated || u[z].allocated);
            }
        }
    }
}

/// Freeing a block keeps the shape, the free total grows by its size, and the
/// allocated blocks lose exactly it.
proof fn lemma_release(s: Seq<MemoryBlock>, total: nat, i: int)
    requires
        layout_ok(s, total),
        total <= usize::MAX,
        0 <= i < s.len(),
        s[i].allocated,
    ensures
        layout_ok(after_release(s, i), total),
        free_of(after_release(s, i)) == free_of(s) + s[i].size,
        allocated_blocks(after_release(s, i)) == released(s, s[i].id),
{
    let t = s.update(i, freed_block(s[i]));
    lemma_free_block_layout(s, total, i);
    lemma_free_block_content(s, total, i);
    assert(t == s.update(
        i,
        MemoryBlock { id: s[i].id, start: s[i].start, size: s[i].size, allocated: false, process_id: None },
    ));
    let u = merge_next(t, i);
    if i + 1 < t.len() && !t[i + 1].allocated {
        lemma_loose_facts(t, total, i);
        lemma_merge_keeps_layout(t, total, i);
        lemma_merge_keeps_content(t, i);
    }
    if 0 < i && !u[i - 1].allocated {
        assert(u.len() > i);
        lemma_loose_facts(u, total, i - 1);
        lemma_merge_keeps_layout(u, total, i - 1);
        lemma_merge_keeps_content(u, i - 1);
    }
    lemma_release_coalesced(s, total, i);
    lemma_layout_ok_loose(after_release(s, i), total);
}

/// The blocks after serving `size` for `owner` from block `i`: taken whole when
/// the size matches exactly, otherwise split into an allocated front part and a
/// free remainder with identifier `new_id` right after it.
pub open spec fn after_allocation(
    s: Seq<MemoryBlock>,
    i: int,
    size: nat,
    owner: u128,
    new_id: u128,
) -> Seq<MemoryBlock> {
    let b = s[i];
    if b.size == size {
        s.update(
            i,
            MemoryBlock { id: b.id, start: b.start, size: b.size, allocated: true, process_id: Some(owner) },
        )
    } else {
        s.update(
            i,
            MemoryBlock { id: b.id, start: b.start, size: size as usize, allocated: true, process_id: Some(owner) },
        ).insert(
            i + 1,
            MemoryBlock {
                id: new_id,
                start: (b.start + size) as usize,
                size: (b.size - size) as usize,
                allocated: false,
                process_id: None,
            },
        )
    }
}

/// Sums distribute over concatenation.
pub proof fn lemma_sums_concat(a: Seq<MemoryBlock>, b: Seq<MemoryBlock>)
    ensures
        total_of(a + b) == total_of(a) + total_of(b),
        free_of(a + b) == free_of(a) + free_of(b),
    decreases b.len(),
{
    if b.len() == 0 {
        assert(a + b =~= a);
    } else {
        lemma_sums_concat(a, b.drop_last());
        assert((a + b).drop_last() =~= a + b.drop_last());
    }
}

proof fn lemma_sums_single(x: MemoryBlock)
    ensures
        total_of(seq![x]) == x.size,
        free_of(seq![x]) == free_weight(x),
{
    let s = seq![x];
    assert(s.drop_last() =~= Seq::<MemoryBlock>::empty());
    assert(s.last() == x);
    assert(total_of(s.drop_last()) == 0);
    assert(free_of(s.drop_last()) == 0);
}

/// The free part never exceeds the whole.
proof fn lemma_free_le_total(s: Seq<MemoryBlock>)
    ensures
        free_of(s) <= total_of(s),
    decreases s.len(),
{
    if s.len() > 0 {
        lemma_free_le_total(s.drop_last());
    }
}

/// How the sums change when block `i` is replaced by `x`.
proof fn lemma_sums_update(s: Seq<MemoryBlock>, i: int, x: MemoryBlock)
    requires
        0 <= i < s.len(),
    ensures
        total_of(s.update(i, x)) + s[i].size == total_of(s) + x.size,
        free_of(s.update(i, x)) + free_weight(s[i]) == free_of(s) + free_weight(x),
{
    let a = s.take(i);
    let c = s.skip(i + 1);
    assert(s =~= a + seq![s[i]] + c);
    assert(s.update(i, x) =~= a + seq![x] + c);
    lemma_sums_concat(a, seq![s[i]]);
    lemma_sums_concat(a + seq![s[i]], c);
    lemma_sums_concat(a, seq![x]);
    lemma_sums_concat(a + seq![x], c);
    lemma_sums_single(s[i]);
    lemma_sums_single(x);
}

/// How the sums change when `x` is inserted at `i`.
proof fn lemma_sums_insert(s: Seq<MemoryBlock>, i: int, x: MemoryBlock)
    requires
        0 <= i <= s.len(),
    ensures
        total_of(s.insert(i, x)) == total_of(s) + x.size,
        free_of(s.insert(i, x)) == free_of(s) + free_weight(x),
{
    let a = s.take(i);
    let c = s.skip(i);
    assert(s =~= a + c);
    assert(s.insert(i, x) =~= a + seq![x] + c);
    lemma_sums_concat(a, c);
    lemma_sums_concat(a, seq![x]);
    lemma_sums_concat(a + seq![x], c);
    lemma_sums_single(x);
}

/// How the sums change when block `i` is removed.
proof fn lemma_sums_remove(s: Seq<MemoryBlock>, i: int)
    requires
        0 <= i < s.len(),
    ensures
        total_of(s.remove(i)) + s[i].size == total_of(s),
        free_of(s.remove(i)) + free_weight(s[i]) == free_of(s),
{
    lemma_sums_insert(s.remove(i), i, s[i]);
    assert(s.remove(i).insert(i, s[i]) =~= s);
}

/// Contiguous blocks cover exactly `total`, and each one ends within it.
pub proof fn lemma_contiguous_total(s: Seq<MemoryBlock>, total: nat)
    requires
        contiguous(s, total),
    ensures
        total_of(s) == total,
        forall|i: int| 0 <= i < s.len() ==> (#[trigger] s[i]).start + s[i].size <= total,
{
    lemma_prefix_ends(s, total, s.len() as int);
    assert(s.take(s.len() as int) =~= s);
    assert forall|i: int| 0 <= i < s.len() implies (#[trigger] s[i]).start + s[i].size <= total by {
        lemma_prefix_ends(s, total, i + 1);
        lemma_sums_concat(s.take(i + 1), s.skip(i + 1));
        assert(s =~= s.take(i + 1) + s.skip(i + 1));
    }
}

proof fn lemma_prefix_ends(s: Seq<MemoryBlock>, total: nat, k: int)
    requires
        contiguous(s, total),
        1 <= k <= s.len(),
    ensures
        total_of(s.take(k)) == s[k - 1].start + s[k - 1].size,
    decreases k,
{
    if k == 1 {
        assert(s.take(1) =~= seq![s[0]]);
        lemma_sums_single(s[0]);
    } else {
        lemma_prefix_ends(s, total, k - 1);
        assert(s.take(k).drop_last() =~= s.take(k - 1));
        assert(s[k - 2].start + s[k - 2].size == s[k - 1].start);
    }
}

/// One block of a contiguous list ends within `total`.
proof fn lemma_block_end_bounded(s: Seq<MemoryBlock>, total: nat, i: int)
    requires
        layout_ok(s, total),
        0 <= i < s.len(),
    ensures
        s[i].start + s[i].size <= total,
{
    reveal(layout_ok);
    lemma_contiguous_total(s, total);
}

/// Two filters agree on a sequence when their predicates agree on its elements.
pub(crate) proof fn lemma_filter_agree(
    s: Seq<MemoryBlock>,
    p: spec_fn(MemoryBlock) -> bool,
    q: spec_fn(MemoryBlock) -> bool,
)
    requires
        forall|i: int| 0 <= i < s.len() ==> p(#[trigger] s[i]) == q(s[i]),
    ensures
        s.filter(p) == s.filter(q),
    decreases s.len(),
{
    reveal(Seq::filter);
    if s.len() > 0 {
        lemma_filter_agree(s.drop_last(), p, q);
    }
}

/// Splitting a fitting free block keeps the block list well formed.
proof fn lemma_split_keeps_layout(s: Seq<MemoryBlock>, total: nat, i: int, size: nat, owner: u128, new_id: u128)
    requires
        layout_ok(s, total),
        0 <= i < s.len(),
        fits(s[i], size),
        s[i].size != size,
        s[i].start + s[i].size <= usize::MAX,
        forall|j: int| 0 <= j < s.len() ==> (#[trigger] s[j]).id != new_id,
    ensures
        layout_ok(after_allocation(s, i, size, owner, new_id), total),
{
    reveal(layout_ok);
    let t = after_allocation(s, i, size, owner, new_id);
    assert(t.len() == s.len() + 1);
    assert(forall|x: int| 0 <= x < i ==> t[x] == s[x]);
    assert(forall|x: int| i + 1 < x < t.len() ==> t[x] == s[x - 1]);
    assert(t[i + 1].id == new_id);
    assert(t[i].id == s[i].id);
    assert(t[i + 1].start == s[i].start + size);
    assert forall|x: int, y: int|
        0 <= x < t.len() && 0 <= y < t.len() && x != y implies (#[trigger] t[x]).id != (#[trigger] t[y]).id by {
        if x != i + 1 && y != i + 1 {
            let sx = if x <= i { x } else { x - 1 };
            let sy = if y <= i { y } else { y - 1 };
            assert(s[sx].id == t[x].id && s[sy].id == t[y].id);
        } else if x == i + 1 {
            let sy = if y <= i { y } else { y - 1 };
            assert(s[sy].id == t[y].id);
        } else {
            let sx = if x <= i { x } else { x - 1 };
            assert(s[sx].id == t[x].id);
        }
    }
    assert forall|x: int, z: int| #![trigger t[x], t[z]] 0 <= x && z == x + 1 && z < t.len() implies t[x].start + t[x].size == t[z].start by {
        if x < i {
            assert(s[x].start + s[x].size == s[x + 1].start);
        } else if x > i {
            assert(s[x - 1].start + s[x - 1].size == s[x].start);
        }
    }
    assert forall|x: int, z: int| #![trigger t[x], t[z]] 0 <= x && z == x + 1 && z < t.len() implies t[x].allocated || t[z].allocated by {
        if x < i {
            assert(s[x].allocated || s[x + 1].allocated);
        } else if x > i {
            assert(s[x - 1].allocated || s[x].allocated);
        }
    }
    assert forall|x: int| 0 <= x < t.len() implies (#[trigger] t[x]).allocated == t[x].process_id.is_some() by {
        if x < i {
            assert(t[x] == s[x]);
        } else if x > i + 1 {
            assert(t[x] == s[x - 1]);
        }
    }
    assert(t.last() == if i + 1 == s.len() - 1 + 1 && i == s.len() - 1 { t[i + 1] } else { s.last() });
}

/// The shape invariant of a block list covering `[0, total)`.
#[verifier::opaque]
pub open spec fn layout_ok(s: Seq<MemoryBlock>, total: nat) -> bool {
    &&& contiguous(s, total)
    &&& coalesced(s)
    &&& owners_consistent(s)
    &&& ids_unique(s)
}

/// The shape invariant without the coalescing clause: what holds while free
/// neighbours are being merged.
#[verifier::opaque]
pub open spec fn layout_loose(s: Seq<MemoryBlock>, total: nat) -> bool {
    &&& contiguous(s, total)
    &&& owners_consistent(s)
    &&& ids_unique(s)
}

/// No two free neighbours among the first `k + 1` blocks.
pub open spec fn prefix_coalesced(s: Seq<MemoryBlock>, k: int) -> bool {
    forall|i: int, j: int| #![trigger s[i], s[j]] 0 <= i < k && j == i + 1 && j < s.len() ==> s[i].allocated || s[j].allocated
}

/// The allocated blocks other than the one with identifier `id`.
pub open spec fn released(s: Seq<MemoryBlock>, id: u128) -> Seq<MemoryBlock> {
    s.filter(|b: MemoryBlock| b.allocated && b.id != id)
}

/// Block `i` and its free successor, both free, merged into one.
pub open spec fn merge_pair(s: Seq<MemoryBlock>, i: int) -> Seq<MemoryBlock> {
    s.update(
        i,
        MemoryBlock {
            id: s[i].id,
            start: s[i].start,
            size: (s[i].size + s[i + 1].size) as usize,
            allocated: false,
            process_id: None,
        },
    ).remove(i + 1)
}

proof fn lemma_loose_facts(s: Seq<MemoryBlock>, total: nat, i: int)
    requires
        layout_loose(s, total),
        0 <= i < s.len() - 1,
    ensures
        s[i].start + s[i].size == s[i + 1].start,
        s[i + 1].start + s[i + 1].size <= total,
{
    reveal(layout_loose);
    lemma_contiguous_total(s, total);
}

proof fn lemma_layout_ok_loose(s: Seq<MemoryBlock>, total: nat)
    ensures
        layout_ok(s, total) <==> (layout_loose(s, total) && coalesced(s)),
{
    reveal(layout_ok);
    reveal(layout_loose);
}

/// Replacing the middle part of a sequence by one with the same filtered
/// content keeps the filtered content of the whole.
proof fn lemma_filter_splice(
    a: Seq<MemoryBlock>,
    x: Seq<MemoryBlock>,
    y: Seq<MemoryBlock>,
    c: Seq<MemoryBlock>,
    p: spec_fn(MemoryBlock) -> bool,
)
    requires
        x.filter(p) == y.filter(p),
    ensures
        (a + x + c).filter(p) == (a + y + c).filter(p),
{
    Seq::filter_distributes_over_add(a, x, p);
    Seq::filter_distributes_over_add(a + x, c, p);
    Seq::filter_distributes_over_add(a, y, p);
    Seq::filter_distributes_over_add(a + y, c, p);
}

/// Free blocks contribute no allocated blocks.
proof fn lemma_all_free(s: Seq<MemoryBlock>)
    requires
        forall|i: int| 0 <= i < s.len() ==> !(#[trigger] s[i]).allocated,
    ensures
        allocated_blocks(s) == Seq::<MemoryBlock>::empty(),
{
    let p = |b: MemoryBlock| b.allocated;
    assert(s.all(|x: MemoryBlock| !p(x)));
    s.lemma_all_neg_filter_empty(p);
    assert(s.filter(p) =~= Seq::<MemoryBlock>::empty());
}

/// Merging two free neighbours keeps the shape of the list.
proof fn lemma_merge_keeps_layout(s: Seq<MemoryBlock>, total: nat, i: int)
    requires
        layout_loose(s, total),
        total <= usize::MAX,
        0 <= i < s.len() - 1,
        !s[i].allocated,
        !s[i + 1].allocated,
    ensures
        layout_loose(merge_pair(s, i), total),
        prefix_coalesced(s, i) ==> prefix_coalesced(merge_pair(s, i), i),
        merge_pair(s, i).len() == s.len() - 1,
{
    reveal(layout_loose);
    lemma_contiguous_total(s, total);
    assert(s[i].start + s[i].size == s[i + 1].start);
    assert(s[i + 1].start + s[i + 1].size <= total);
    let t = merge_pair(s, i);
    let m = t[i];
    assert(forall|x: int| 0 <= x < i ==> t[x] == s[x]);
    assert(forall|x: int| i < x < t.len() ==> t[x] == s[x + 1]);
    assert forall|x: int, y: int|
        0 <= x < t.len() && 0 <= y < t.len() && x != y implies (#[trigger] t[x]).id != (#[trigger] t[y]).id by {
        let sx = if x <= i { x } else { x + 1 };
        let sy = if y <= i { y } else { y + 1 };
        assert(s[sx].id == t[x].id && s[sy].id == t[y].id);
    }
    assert forall|x: int, z: int| #![trigger t[x], t[z]] 0 <= x && z == x + 1 && z < t.len() implies t[x].start + t[x].size == t[z].start by {
        if x < i {
            assert(s[x].start + s[x].size == s[x + 1].start);
        } else if x == i {
            assert(s[i].start + s[i].size == s[i + 1].start);
            assert(s[i + 1].start + s[i + 1].size == s[i + 2].start);
        } else {
            assert(s[x + 1].start + s[x + 1].size == s[x + 2].start);
        }
    }
    assert forall|x: int| 0 <= x < t.len() implies (#[trigger] t[x]).allocated == t[x].process_id.is_some() by {
        if x < i {
            assert(t[x] == s[x]);
        } else if x > i {
            assert(t[x] == s[x + 1]);
        }
    }
    if prefix_coalesced(s, i) {
        assert forall|j: int, z: int| #![trigger t[j], t[z]] 0 <= j < i && z == j + 1 && z < t.len() implies t[j].allocated || t[z].allocated by {
            assert(s[j].allocated || s[j + 1].allocated);
        }
    }
    if i + 1 == s.len() - 1 {
        assert(s[i].start + s[i].size == s[i + 1].start);
        assert(t.last() == m);
    } else {
        assert(t.last() == s.last());
    }
}

/// Merging two free neighbours keeps the free total and the allocated blocks.
proof fn lemma_merge_keeps_content(s: Seq<MemoryBlock>, i: int)
    requires
        0 <= i < s.len() - 1,
        s[i].size + s[i + 1].size <= usize::MAX,
        !s[i].allocated,
        !s[i + 1].allocated,
    ensures
        free_of(merge_pair(s, i)) == free_of(s),
        allocated_blocks(merge_pair(s, i)) == allocated_blocks(s),
{
    let t = merge_pair(s, i);
    let m = t[i];
    let u = s.update(i, m);
    lemma_sums_update(s, i, m);
    lemma_sums_remove(u, i + 1);
    assert(u[i + 1] == s[i + 1]);
    assert(t == u.remove(i + 1));
    let a = s.take(i);
    let c = s.skip(i + 2);
    let x = seq![s[i], s[i + 1]];
    let y = seq![m];
    assert(s =~= a + x + c);
    assert(t =~= a + y + c);
    lemma_all_free(x);
    lemma_all_free(y);
    lemma_filter_splice(a, x, y, c, |b: MemoryBlock| b.allocated);
}

/// Freeing the allocated block `i` keeps the shape of the list, apart from
/// coalescing.
proof fn lemma_free_block_layout(s: Seq<MemoryBlock>, total: nat, i: int)
    requires
        layout_ok(s, total),
        0 <= i < s.len(),
    ensures
        layout_loose(
            s.update(
                i,
                MemoryBlock { id: s[i].id, start: s[i].start, size: s[i].size, allocated: false, process_id: None },
            ),
            total,
        ),
{
    reveal(layout_ok);
    reveal(layout_loose);
    let m = MemoryBlock { id: s[i].id, start: s[i].start, size: s[i].size, allocated: false, process_id: None };
    let t = s.update(i, m);
    assert forall|x: int, z: int| #![trigger t[x], t[z]] 0 <= x && z == x + 1 && z < t.len() implies t[x].start + t[x].size == t[z].start by {
        assert(s[x].start + s[x].size == s[x + 1].start);
    }
    assert forall|x: int, y: int|
        0 <= x < t.len() && 0 <= y < t.len() && x != y implies (#[trigger] t[x]).id != (#[trigger] t[y]).id by {
        assert(s[x].id == t[x].id && s[y].id == t[y].id);
    }
}

/// Freeing the allocated block `i` adds its size to the free total and removes
/// exactly it from the allocated blocks.
proof fn lemma_free_block_content(s: Seq<MemoryBlock>, total: nat, i: int)
    requires
        layout_ok(s, total),
        0 <= i < s.len(),
        s[i].allocated,
    ensures
        ({
            let t = s.update(
                i,
                MemoryBlock { id: s[i].id, start: s[i].start, size: s[i].size, allocated: false, process_id: None },
            );
            &&& free_of(t) == free_of(s) + s[i].size
            &&& free_of(t) <= total
            &&& allocated_blocks(t) == released(s, s[i].id)
        }),
{
    let m = MemoryBlock { id: s[i].id, start: s[i].start, size: s[i].size, allocated: false, process_id: None };
    let t = s.update(i, m);
    lemma_sums_update(s, i, m);
    lemma_free_le_total(t);
    assert(layout_ok(s, total) ==> contiguous(s, total)) by {
        reveal(layout_ok);
    }
    lemma_contiguous_total(s, total);
    let a = s.take(i);
    let c = s.skip(i + 1);
    let x = seq![s[i]];
    let y = seq![m];
    assert(s =~= a + x + c);
    assert(t =~= a + y + c);
    let p = |b: MemoryBlock| b.allocated;
    let q = |b: MemoryBlock| b.allocated && b.id != s[i].id;
    assert(ids_unique(s)) by {
        reveal(layout_ok);
    }
    assert forall|k: int| 0 <= k < a.len() implies p(#[trigger] a[k]) == q(a[k]) by {
        assert(a[k] == s[k]);
    }
    assert forall|k: int| 0 <= k < c.len() implies p(#[trigger] c[k]) == q(c[k]) by {
        assert(c[k] == s[k + i + 1]);
    }
    lemma_filter_agree(a, p, q);
    lemma_filter_agree(c, p, q);
    lemma_all_free(y);
    assert(x.all(|e: MemoryBlock| !q(e)));
    x.lemma_all_neg_filter_empty(q);
    assert(x.filter(q) =~= y.filter(p));
    Seq::filter_distributes_over_add(a, x, q);
    Seq::filter_distributes_over_add(a + x, c, q);
    Seq::filter_distributes_over_add(a, y, p);
    Seq::filter_distributes_over_add(a + y, c, p);
}

/// The statistics of `m`.
pub open spec fn stats_of(m: MemoryManager, r: MemoryStats) -> bool {
    &&& r.total_size == m.total_size
    &&& r.free_space == m.free_space
    &&& r.allocated_space == m.total_size - m.free_space
    &&& r.total_blocks == m.blocks@.len()
    &&& r.allocated_blocks == allocated_blocks(m.blocks@).len()
    &&& r.free_blocks == m.blocks@.len() - allocated_blocks(m.blocks@).len()
}

/// What `allocate(size, owner)` does, from `m` to `n`, returning `r`.
pub open spec fn allocate_post(
    m: MemoryManager,
    n: MemoryManager,
    size: nat,
    owner: u128,
    r: Result<u128, MemoryError>,
) -> bool {
    &&& n.wf()
    &&& n.total_size == m.total_size
    &&& size > m.free_space ==> r == Err::<u128, MemoryError>(MemoryError::OutOfMemory)
    &&& size <= m.free_space && (forall|j: int| 0 <= j < m.blocks@.len() ==> !fits(#[trigger] m.blocks@[j], size))
        ==> r == Err::<u128, MemoryError>(MemoryError::NoFit)
    &&& r is Err ==> n == m
    &&& size <= m.free_space ==> forall|i: int| #[trigger]
        is_first_fit(m.blocks@, size, i) ==> {
            &&& r == Ok::<u128, MemoryError>(m.blocks@[i].id)
            &&& n.blocks@ == after_allocation(m.blocks@, i, size, owner, n.blocks@[i + 1].id)
        }
    &&& r is Ok ==> n.free_space == m.free_space - size
}

/// What `deallocate(id)` does, from `m` to `n`, returning `r`.
pub open spec fn deallocate_post(m: MemoryManager, n: MemoryManager, id: u128, r: Result<(), MemoryError>) -> bool {
    &&& n.wf()
    &&& n.total_size == m.total_size
    &&& r is Ok <==> holds_allocated(m.blocks@, id)
    &&& r is Err ==> r == Err::<(), MemoryError>(MemoryError::BlockNotFound) && n == m
    &&& r is Ok ==> forall|i: int|
        0 <= i < m.blocks@.len() && (#[trigger] m.blocks@[i]).id == id ==> n.free_space == m.free_space
            + m.blocks@[i].size
    &&& r is Ok ==> allocated_blocks(n.blocks@) == released(m.blocks@, id)
    &&& r is Ok ==> forall|i: int|
        0 <= i < m.blocks@.len() && (#[trigger] m.blocks@[i]).id == id ==> n.blocks@ == after_release(m.blocks@, i)
}

/// The blocks of a well-formed manager cover the address space exactly: their
/// sizes add up to `total_size`.
pub proof fn lemma_sizes_sum_to_total(m: MemoryManager)
    requires
        m.wf(),
    ensures
        total_of(m.blocks@) == m.total_size,
{
    reveal(layout_ok);
    lemma_contiguous_total(m.blocks@, m.total_size as nat);
}

/// After a deallocation, successful or not, no two neighbouring blocks are both free.
pub proof fn lemma_coalesced_after_deallocate(
    m: MemoryManager,
    n: MemoryManager,
    id: u128,
    r: Result<(), MemoryError>,
)
    requires
        m.wf(),
        deallocate_post(m, n, id, r),
    ensures
        coalesced(n.blocks@),
{
    reveal(layout_ok);
}

/// When some block fits a request, a first one does.
pub(crate) proof fn lemma_first_fit_exists(s: Seq<MemoryBlock>, size: nat, j: int)
    requires
        0 <= j < s.len(),
        fits(s[j], size),
    ensures
        exists|i: int| #[trigger] is_first_fit(s, size, i),
    decreases j,
{
    if forall|k: int| 0 <= k < j ==> !fits(#[trigger] s[k], size) {
        assert(is_first_fit(s, size, j));
    } else {
        let k = choose|k: int| 0 <= k < j && fits(#[trigger] s[k], size);
        lemma_first_fit_exists(s, size, k);
    }
}

/// Allocating `size` and then freeing the returned block restores the free space.
pub proof fn lemma_allocate_deallocate_round_trip(
    m0: MemoryManager,
    m1: MemoryManager,
    m2: MemoryManager,
    size: nat,
    owner: u128,
    id: u128,
    r: Result<(), MemoryError>,
)
    requires
        m0.wf(),
        allocate_post(m0, m1, size, owner, Ok(id)),
        deallocate_post(m1, m2, id, r),
    ensures
        r is Ok,
        m2.free_space == m0.free_space,
        m2.blocks@ == m0.blocks@,
{
    let s = m0.blocks@;
    let j = choose|j: int| 0 <= j < s.len() && fits(#[trigger] s[j], size);
    lemma_first_fit_exists(s, size, j);
    let i = choose|i: int| #[trigger] is_first_fit(s, size, i);
    let t = m1.blocks@;
    assert(t[i].id == id && t[i].allocated && t[i].size == size);
    assert(holds_allocated(t, id));
    lemma_release_restores(s, m0.total_size as nat, i, size, owner, t);
}

/// Freeing the block that a first-fit allocation just made gives back the
/// blocks as they were before it.
proof fn lemma_release_restores(s: Seq<MemoryBlock>, total: nat, i: int, size: nat, owner: u128, t: Seq<MemoryBlock>)
    requires
        layout_ok(s, total),
        is_first_fit(s, size, i),
        t == after_allocation(s, i, size, owner, t[i + 1].id),
    ensures
        after_release(t, i) == s,
{
    reveal(layout_ok);
    let b = s[i];
    assert(b.process_id is None);
    assert(i + 1 < s.len() ==> s[i + 1].allocated) by {
        if i + 1 < s.len() {
            assert(s[i].allocated || s[i + 1].allocated);
        }
    }
    assert(0 < i ==> s[i - 1].allocated) by {
        if 0 < i {
            assert(s[i - 1].allocated || s[i].allocated);
        }
    }
    let f = t.update(i, freed_block(t[i]));
    if b.size == size {
        assert(f =~= s);
    } else {
        assert(f[i + 1] == t[i + 1]);
        assert(!f[i + 1].allocated);
        let g = merge_pair(f, i);
        assert(g =~= s);
    }
}

/// Freeing the same block twice fails the second time.
pub proof fn lemma_double_free_fails(
    m0: MemoryManager,
    m1: MemoryManager,
    m2: MemoryManager,
    id: u128,
    r: Result<(), MemoryError>,
)
    requires
        m0.wf(),
        deallocate_post(m0, m1, id, Ok(())),
        deallocate_post(m1, m2, id, r),
    ensures
        r == Err::<(), MemoryError>(MemoryError::BlockNotFound),
{
    let t = m1.blocks@;
    let p = |b: MemoryBlock| b.allocated;
    let q = |b: MemoryBlock| b.allocated && b.id != id;
    if holds_allocated(t, id) {
        let k = choose|k: int| 0 <= k < t.len() && (#[trigger] t[k]).id == id && t[k].allocated;
        t.lemma_filter_contains(p, k);
        let f = m0.blocks@.filter(q);
        let x = choose|x: int| 0 <= x < f.len() && f[x] == t[k];
        m0.blocks@.lemma_filter_pred(q, x);
    }
}

impl MemoryManager {
    /// The invariant of the block list.
    pub open spec fn wf(&self) -> bool {
        &&& layout_ok(self.blocks@, self.total_size as nat)
        &&& self.free_space == free_of(self.blocks@)
    }

    /// One free block spanning the whole address space.
    pub fn new(total_size: usize) -> (r: Self)
        ensures
            r.wf(),
            r.total_size == total_size,
            r.free_space == total_size,
            r.blocks@.len() == 1,
            r.blocks@[0].start == 0,
            r.blocks@[0].size == total_size,
            !r.blocks@[0].allocated,
    {
        let initial_block = MemoryBlock {
            id: random_id(),
            start: 0,
            size: total_size,
            allocated: false,
            process_id: None,
        };
        let r = MemoryManager { total_size, blocks: vec![initial_block], free_space: total_size };
        proof {
            reveal(layout_ok);
            lemma_sums_single(initial_block);
            assert(r.blocks@ =~= seq![initial_block]);
        }
        r
    }

    /// An identifier that no block carries.
    fn fresh_block_id(&self) -> (r: u128)
        ensures
            forall|i: int| 0 <= i < self.blocks@.len() ==> (#[trigger] self.blocks@[i]).id != r,
    {
        let mut ids: Vec<u128> = Vec::new();
        let mut i: usize = 0;
        while i < self.blocks.len()
            invariant
                0 <= i <= self.blocks@.len(),
                ids@.len() == i,
                forall|j: int| 0 <= j < i ==> ids@[j] == (#[trigger] self.blocks@[j]).id,
            decreases self.blocks@.len() - i,
        {
            ids.push(self.blocks[i].id);
            i = i + 1;
        }
        let r = pick_fresh_id(random_id(), &ids);
        assert forall|i: int| 0 <= i < self.blocks@.len() implies (#[trigger] self.blocks@[i]).id != r by {
            assert(ids@[i] == self.blocks@[i].id);
        }
        r
    }

    /// The index of the first block, in address order, that can serve `size`.
    fn find_first_fit(&self, size: usize) -> (r: Option<usize>)
        ensures
            r is Some ==> is_first_fit(self.blocks@, size as nat, r->Some_0 as int),
            r is None ==> forall|j: int| 0 <= j < self.blocks@.len() ==> !fits(#[trigger] self.blocks@[j], size as nat),
    {
        let mut i: usize = 0;
        while i < self.blocks.len()
            invariant
                0 <= i <= self.blocks@.len(),
                forall|j: int| 0 <= j < i ==> !fits(#[trigger] self.blocks@[j], size as nat),
            decreases self.blocks@.len() - i,
        {
            if !self.blocks[i].allocated && self.blocks[i].size >= size {
                return Some(i);
            }
            i = i + 1;
        }
        None
    }

    /// Allocates the whole of free block `i`, whose size is exactly `size`.
    fn take_whole_block(&mut self, i: usize, size: usize, process_id: u128)
        requires
            old(self).wf(),
            0 <= i < old(self).blocks@.len(),
            fits(old(self).blocks@[i as int], size as nat),
            old(self).blocks@[i as int].size == size,
        ensures
            final(self).wf(),
            final(self).total_size == old(self).total_size,
            final(self).blocks@ == after_allocation(old(self).blocks@, i as int, size as nat, process_id, 0),
            final(self).free_space == old(self).free_space - size,
    {
        let ghost s = self.blocks@;
        let b = self.blocks[i];
        let nb = MemoryBlock { id: b.id, start: b.start, size: b.size, allocated: true, process_id: Some(process_id) };
        self.blocks.set(i, nb);
        proof {
            lemma_sums_update(s, i as int, nb);
        }
        self.free_space = self.free_space - size;
        proof {
            reveal(layout_ok);
            let t = self.blocks@;
            assert forall|x: int, y: int|
                0 <= x < t.len() && 0 <= y < t.len() && x != y implies (#[trigger] t[x]).id != (#[trigger] t[y]).id by {
                assert(s[x].id == t[x].id && s[y].id == t[y].id);
            }
            assert forall|x: int, z: int| #![trigger t[x], t[z]] 0 <= x && z == x + 1 && z < t.len() implies t[x].start + t[x].size == t[z].start by {
                assert(s[x].start + s[x].size == s[x + 1].start);
            }
            assert forall|x: int, z: int| #![trigger t[x], t[z]] 0 <= x && z == x + 1 && z < t.len() implies t[x].allocated || t[z].allocated by {
                assert(s[x].allocated || s[x + 1].allocated);
            }
        }
    }

    /// Allocates the front `size` units of free block `i`, which is larger, and
    /// inserts the remainder as a free block with identifier `new_id` after it.
    #[verifier::rlimit(80)]
    fn split_block(&mut self, i: usize, size: usize, process_id: u128, new_id: u128)
        requires
            old(self).wf(),
            0 <= i < old(self).blocks@.len(),
            fits(old(self).blocks@[i as int], size as nat),
            old(self).blocks@[i as int].size != size,
            forall|j: int| 0 <= j < old(self).blocks@.len() ==> (#[trigger] old(self).blocks@[j]).id != new_id,
        ensures
            final(self).wf(),
            final(self).total_size == old(self).total_size,
            final(self).blocks@ == after_allocation(old(self).blocks@, i as int, size as nat, process_id, new_id),
            final(self).free_space == old(self).free_space - size,
    {
        let ghost s = self.blocks@;
        proof {
            lemma_block_end_bounded(s, self.total_size as nat, i as int);
        }
        let b = self.blocks[i];
        let front = MemoryBlock { id: b.id, start: b.start, size, allocated: true, process_id: Some(process_id) };
        let rest = MemoryBlock {
            id: new_id,
            start: b.start + size,
            size: b.size - size,
            allocated: false,
            process_id: None,
        };
        let n = self.blocks.len();
        assert(i < n);
        self.blocks.set(i, front);
        self.blocks.insert(i + 1, rest);
        let ghost t = s.update(i as int, front).insert(i + 1, rest);
        assert(self.blocks@ == t);
        assert(t == after_allocation(s, i as int, size as nat, process_id, new_id));
        proof {
            lemma_sums_update(s, i as int, front);
            lemma_sums_insert(s.update(i as int, front), i + 1, rest);
        }
        self.free_space = self.free_space - size;
        proof {
            lemma_split_keeps_layout(s, self.total_size as nat, i as int, size as nat, process_id, new_id);
        }
    }

    /// First fit: serves `size` for `process_id` from the first free block, in
    /// address order, that is large enough, splitting off the remainder as a new
    /// free block right after it. Returns the identifier of the allocated block.
    pub fn allocate(&mut self, size: usize, process_id: u128) -> (r: Result<u128, MemoryError>)
        requires
            old(self).wf(),
        ensures
            allocate_post(*old(self), *final(self), size as nat, process_id, r),
    {
        if size > self.free_space {
            return Err(MemoryError::OutOfMemory);
        }
        match self.find_first_fit(size) {
            None => Err(MemoryError::NoFit),
            Some(i) => {
                let ghost s = self.blocks@;
                assert forall|k: int| #[trigger] is_first_fit(s, size as nat, k) implies k == i by {
                    if k < i {
                        assert(!fits(s[k], size as nat));
                    }
                    if k > i {
                        assert(!fits(s[i as int], size as nat));
                    }
                }
                let id = self.blocks[i].id;
                if self.blocks[i].size == size {
                    self.take_whole_block(i, size, process_id);
                } else {
                    let new_id = self.fresh_block_id();
                    self.split_block(i, size, process_id, new_id);
                    assert(self.blocks@[i + 1].id == new_id);
                }
                Ok(id)
            }
        }
    }

    /// Merges neighbouring free blocks, repeatedly, until no two neighbours
    /// are both free. The allocated blocks and the free total are unchanged.
    pub fn merge_free_blocks(&mut self)
        requires
            layout_loose(old(self).blocks@, old(self).total_size as nat),
            old(self).free_space == free_of(old(self).blocks@),
        ensures
            final(self).wf(),
            final(self).total_size == old(self).total_size,
            final(self).free_space == old(self).free_space,
            allocated_blocks(final(self).blocks@) == allocated_blocks(old(self).blocks@),
    {
        proof {
            assert(self.blocks@.len() > 0) by {
                reveal(layout_loose);
            }
        }
        let mut i: usize = 0;
        while i < self.blocks.len() - 1
            invariant
                layout_loose(self.blocks@, self.total_size as nat),
                self.total_size == old(self).total_size,
                self.free_space == old(self).free_space,
                self.free_space == free_of(self.blocks@),
                allocated_blocks(self.blocks@) == allocated_blocks(old(self).blocks@),
                0 <= i < self.blocks@.len(),
                prefix_coalesced(self.blocks@, i as int),
            decreases self.blocks@.len() - i,
        {
            let cur = self.blocks[i];
            let next = self.blocks[i + 1];
            proof {
                lemma_loose_facts(self.blocks@, self.total_size as nat, i as int);
            }
            if !cur.allocated && !next.allocated && cur.start + cur.size == next.start {
                let ghost s = self.blocks@;
                let merged = MemoryBlock {
                    id: cur.id,
                    start: cur.start,
                    size: cur.size + next.size,
                    allocated: false,
                    process_id: None,
                };
                self.blocks.set(i, merged);
                self.blocks.remove(i + 1);
                proof {
                    lemma_merge_keeps_layout(s, self.total_size as nat, i as int);
                    lemma_merge_keeps_content(s, i as int);
                    assert(self.blocks@ == merge_pair(s, i as int));
                }
            } else {
                i = i + 1;
            }
        }
        proof {
            lemma_layout_ok_loose(self.blocks@, self.total_size as nat);
        }
    }

    /// The index of the allocated block `block_id`.
    fn find_allocated(&self, block_id: u128) -> (r: Option<usize>)
        ensures
            r is Some ==> ({
                let i = r->Some_0 as int;
                0 <= i < self.blocks@.len() && self.blocks@[i].id == block_id && self.blocks@[i].allocated
            }),
            r is None ==> !holds_allocated(self.blocks@, block_id),
    {
        let mut i: usize = 0;
        while i < self.blocks.len()
            invariant
                0 <= i <= self.blocks@.len(),
                forall|j: int| 0 <= j < i ==> !((#[trigger] self.blocks@[j]).id == block_id && self.blocks@[j].allocated),
            decreases self.blocks@.len() - i,
        {
            if self.blocks[i].id == block_id && self.blocks[i].allocated {
                return Some(i);
            }
            i = i + 1;
        }
        None
    }

    /// Frees the allocated block `block_id` and merges it with free neighbours.
    pub fn deallocate(&mut self, block_id: u128) -> (r: Result<(), MemoryError>)
        requires
            old(self).wf(),
        ensures
            deallocate_post(*old(self), *final(self), block_id, r),
    {
        let i = match self.find_allocated(block_id) {
            None => {
                return Err(MemoryError::BlockNotFound);
            },
            Some(i) => i,
        };
        let ghost s = self.blocks@;
        proof {
            lemma_release(s, self.total_size as nat, i as int);
            lemma_free_block_content(s, self.total_size as nat, i as int);
            assert forall|k: int|
                0 <= k < s.len() && (#[trigger] s[k]).id == block_id implies k == i by {
                reveal(layout_ok);
            }
        }
        let b = self.blocks[i];
        self.blocks.set(i, MemoryBlock { id: b.id, start: b.start, size: b.size, allocated: false, process_id: None });
        self.free_space = self.free_space + b.size;
        let ghost t = self.blocks@;
        assert(t == s.update(i as int, freed_block(s[i as int])));
        proof {
            lemma_free_block_layout(s, self.total_size as nat, i as int);
            if i + 1 < t.len() && !t[i + 1].allocated {
                lemma_loose_facts(t, self.total_size as nat, i as int);
            }
        }
        if i < self.blocks.len() - 1 && !self.blocks[i + 1].allocated {
            let next = self.blocks[i + 1];
            self.blocks.set(
                i,
                MemoryBlock { id: b.id, start: b.start, size: b.size + next.size, allocated: false, process_id: None },
            );
            self.blocks.remove(i + 1);
        }
        let ghost u = self.blocks@;
        assert(u == merge_next(t, i as int));
        proof {
            if i + 1 < t.len() && !t[i + 1].allocated {
                lemma_merge_keeps_layout(t, self.total_size as nat, i as int);
            }
            if 0 < i && !u[i - 1].allocated {
                lemma_loose_facts(u, self.total_size as nat, i - 1);
            }
        }
        if i > 0 && !self.blocks[i - 1].allocated {
            let prev = self.blocks[i - 1];
            let cur = self.blocks[i];
            self.blocks.set(
                i - 1,
                MemoryBlock { id: prev.id, start: prev.start, size: prev.size + cur.size, allocated: false, process_id: None },
            );
            self.blocks.remove(i);
        }
        assert(self.blocks@ == after_release(s, i as int));
        Ok(())
    }

    /// Counts of the blocks and of the space in each state.
    pub fn get_stats(&self) -> (r: MemoryStats)
        requires
            self.wf(),
        ensures
            stats_of(*self, r),
    {
        proof {
            reveal(layout_ok);
            lemma_contiguous_total(self.blocks@, self.total_size as nat);
            lemma_free_le_total(self.blocks@);
        }
        let mut allocated: usize = 0;
        let mut i: usize = 0;
        while i < self.blocks.len()
            invariant
                0 <= i <= self.blocks@.len(),
                allocated == allocated_blocks(self.blocks@.take(i as int)).len(),
                allocated <= i,
            decreases self.blocks@.len() - i,
        {
            proof {
                assert(self.blocks@.take(i + 1) == self.blocks@.take(i as int).push(self.blocks@[i as int]));
                self.blocks@.take(i as int).lemma_filter_push(self.blocks@[i as int], |b: MemoryBlock| b.allocated);
            }
            if self.blocks[i].allocated {
                allocated = allocated + 1;
            }
            i = i + 1;
        }
        proof {
            assert(self.blocks@.take(self.blocks@.len() as int) =~= self.blocks@);
        }
        MemoryStats {
            total_size: self.total_size,
            free_space: self.free_space,
            allocated_space: self.total_size - self.free_space,
            total_blocks: self.blocks.len(),
            allocated_blocks: allocated,
            free_blocks: self.blocks.len() - allocated,
        }
    }
}

} // verus!
