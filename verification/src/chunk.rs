//! Reading a file in chunks: how its length is cut into byte ranges, and how
//! the ranges, read in any order, are put together again.

use vstd::prelude::*;

verus! {

/// A byte range of a file.
#[derive(Clone, Copy, Debug)]
pub struct Chunk {
    pub offset: u64,
    pub length: u64,
}

/// The bytes read from one chunk.
#[derive(Debug)]
pub struct ChunkData {
    /// Where the chunk begins in the file.
    pub offset: u64,
    pub bytes: Vec<u8>,
}

// ---------------------------------------------------------------------------
// Cutting
// ---------------------------------------------------------------------------

/// Total length of the first `i` chunks of `plan`.
pub open spec fn length_before(plan: Seq<Chunk>, i: int) -> int
    decreases i,
{
    if i <= 0 {
        0
    } else {
        length_before(plan, i - 1) + plan[i - 1].length
    }
}

/// `plan` cuts the first `total` bytes without gap or overlap: no chunk is
/// empty, each starts where the chunks before it end, and together they
/// hold `total` bytes.
pub open spec fn is_partition(plan: Seq<Chunk>, total: nat) -> bool {
    &&& forall|i: int|
        0 <= i < plan.len() ==> (#[trigger] plan[i]).length > 0 && plan[i].offset
            == length_before(plan, i)
    &&& total == length_before(plan, plan.len() as int)
}

/// Number of chunks of at most `block` bytes that `length` bytes take.
pub open spec fn chunk_count(length: nat, block: nat) -> nat {
    if length % block == 0 {
        length / block
    } else {
        length / block + 1
    }
}

/// The `i`-th chunk when `length` bytes are cut into blocks of `block`.
pub open spec fn nth_chunk(length: nat, block: nat, i: int) -> Chunk {
    Chunk {
        offset: (i * block) as u64,
        length: (if length - i * block < block {
            length - i * block
        } else {
            block as int
        }) as u64,
    }
}

/// The chunks into which `length` bytes are cut, in ascending order: all of
/// `block` bytes but possibly the last, which takes what is left.
pub open spec fn chunk_plan(length: nat, block: nat) -> Seq<Chunk> {
    Seq::new(chunk_count(length, block), |i: int| nth_chunk(length, block, i))
}

/// Offsets of whole blocks below `length`.
proof fn lemma_block_bounds(length: nat, block: nat, i: int)
    requires
        block > 0,
        0 <= i < chunk_count(length, block),
    ensures
        0 <= i * block < length,
        (i + 1) * block == i * block + block,
        i + 1 < chunk_count(length, block) ==> (i + 1) * block < length,
        i + 1 == chunk_count(length, block) ==> length <= (i + 1) * block,
{
    assert(length == (length / block) * block + length % block) by (nonlinear_arith)
        requires
            block > 0,
    ;
    assert((i + 1) * block == i * block + block) by (nonlinear_arith);
    assert(0 <= i * block) by (nonlinear_arith)
        requires
            0 <= i,
            block > 0,
    ;
    if i < length / block {
        assert(i * block + block <= (length / block) * block) by (nonlinear_arith)
            requires
                i < length / block,
                block > 0,
        ;
    } else {
        assert(i * block == (length / block) * block);
    }
    if i + 1 < chunk_count(length, block) {
        if i + 1 < length / block {
            assert((i + 1) * block + block <= (length / block) * block) by (nonlinear_arith)
                requires
                    i + 1 < length / block,
                    block > 0,
            ;
        } else {
            assert((i + 1) * block == (length / block) * block);
        }
    }
    if i + 1 == chunk_count(length, block) {
        if length % block == 0 {
            assert((i + 1) * block == (length / block) * block);
        } else {
            assert((i + 1) * block == (length / block) * block + block) by (nonlinear_arith)
                requires
                    i == length / block,
            ;
            assert(length % block < block) by (nonlinear_arith)
                requires
                    block > 0,
            ;
        }
    }
}

/// The first `i` blocks hold `i` times the block size, and all blocks hold
/// the whole length.
proof fn lemma_blocks_before(length: nat, block: nat, i: int)
    requires
        block > 0,
        length <= u64::MAX,
        0 <= i <= chunk_count(length, block),
    ensures
        length_before(chunk_plan(length, block), i) == if i < chunk_count(length, block) {
            i * block
        } else {
            length as int
        },
    decreases i,
{
    let plan = chunk_plan(length, block);
    if i == 0 {
        assert(0 * block == 0) by (nonlinear_arith);
        if chunk_count(length, block) == 0 && length > 0 {
            assert(length / block > 0 || length % block > 0) by (nonlinear_arith)
                requires
                    length > 0,
                    block > 0,
            ;
        }
    } else {
        lemma_blocks_before(length, block, i - 1);
        lemma_block_bounds(length, block, i - 1);
        assert(plan[i - 1] == nth_chunk(length, block, i - 1));
    }
}

/// Cutting into blocks leaves no gap and no overlap, whatever the block size.
pub proof fn lemma_plan_is_partition(length: nat, block: nat)
    requires
        block > 0,
        length <= u64::MAX,
    ensures
        is_partition(chunk_plan(length, block), length),
{
    let plan = chunk_plan(length, block);
    assert forall|i: int| 0 <= i < plan.len() implies (#[trigger] plan[i]).length > 0
        && plan[i].offset == length_before(plan, i) by {
        lemma_block_bounds(length, block, i);
        lemma_blocks_before(length, block, i);
    }
    lemma_blocks_before(length, block, plan.len() as int);
}

/// Cuts `length` bytes into chunks of `block_size` bytes, the last taking
/// what is left.
pub fn plan_chunks(length: u64, block_size: u64) -> (plan: Vec<Chunk>)
    requires
        block_size > 0,
    ensures
        plan@ == chunk_plan(length as nat, block_size as nat),
        is_partition(plan@, length as nat),
{
    let ghost whole = chunk_plan(length as nat, block_size as nat);
    let ghost count = chunk_count(length as nat, block_size as nat);
    let mut plan: Vec<Chunk> = Vec::new();
    let mut offset: u64 = 0;
    assert(0 * (block_size as nat) == 0) by (nonlinear_arith);
    proof {
        if length > 0 {
            assert(length as nat / block_size as nat > 0 || length as nat % block_size as nat
                > 0) by (nonlinear_arith)
                requires
                    length > 0,
                    block_size > 0,
            ;
        }
    }
    while offset < length
        invariant
            block_size > 0,
            whole == chunk_plan(length as nat, block_size as nat),
            count == chunk_count(length as nat, block_size as nat),
            plan@.len() <= count,
            plan@ == whole.take(plan@.len() as int),
            offset == (if plan@.len() < count {
                plan@.len() * block_size
            } else {
                length as int
            }),
        decreases length - offset,
    {
        let ghost i = plan@.len() as int;
        proof {
            lemma_block_bounds(length as nat, block_size as nat, i);
        }
        let left: u64 = length - offset;
        let size: u64 = if left < block_size {
            left
        } else {
            block_size
        };
        plan.push(Chunk { offset, length: size });
        proof {
            assert(whole[i] == Chunk { offset, length: size });
            assert(plan@ =~= whole.take(i + 1));
        }
        offset += size;
    }
    proof {
        if plan@.len() < count {
            lemma_block_bounds(length as nat, block_size as nat, plan@.len() as int);
        }
        assert(whole.take(count as int) =~= whole);
        lemma_plan_is_partition(length as nat, block_size as nat);
    }
    plan
}

/// The chunks of `length` bytes for blocks of `block_size_kb` times 1024
/// bytes; none where that block size is zero or does not fit 64 bits.
pub fn plan_blocks(length: u64, block_size_kb: usize) -> (plan: Option<Vec<Chunk>>)
    ensures
        match plan {
            Some(p) => 0 < block_size_kb * 1024 <= u64::MAX && p@ == chunk_plan(
                length as nat,
                (block_size_kb * 1024) as nat,
            ) && is_partition(p@, length as nat),
            None => block_size_kb == 0 || block_size_kb * 1024 > u64::MAX,
        },
{
    let wide: u64 = block_size_kb as u64;
    match wide.checked_mul(1024) {
        Some(block) => if block == 0 {
            None
        } else {
            Some(plan_chunks(length, block))
        },
        None => None,
    }
}

// ---------------------------------------------------------------------------
// Putting together
// ---------------------------------------------------------------------------

/// The offsets and contents of `parts`.
pub open spec fn parts_view(parts: Seq<ChunkData>) -> Seq<(nat, Seq<u8>)> {
    Seq::new(parts.len(), |i: int| (parts[i].offset as nat, parts[i].bytes@))
}

/// `sorted` with `part` put behind the last part that does not start after
/// it.
pub open spec fn place(sorted: Seq<(nat, Seq<u8>)>, part: (nat, Seq<u8>)) -> Seq<(nat, Seq<u8>)>
    decreases sorted.len(),
{
    if sorted.len() > 0 && sorted.last().0 > part.0 {
        place(sorted.drop_last(), part).push(sorted.last())
    } else {
        sorted.push(part)
    }
}

/// `parts` in ascending order of offset; parts with one offset keep their
/// order.
pub open spec fn by_offset(parts: Seq<(nat, Seq<u8>)>) -> Seq<(nat, Seq<u8>)>
    decreases parts.len(),
{
    if parts.len() == 0 {
        Seq::empty()
    } else {
        place(by_offset(parts.drop_last()), parts.last())
    }
}

/// The contents of `parts`, one after the other.
pub open spec fn concat(parts: Seq<(nat, Seq<u8>)>) -> Seq<u8>
    decreases parts.len(),
{
    if parts.len() == 0 {
        Seq::empty()
    } else {
        concat(parts.drop_last()) + parts.last().1
    }
}

/// What `parts` make when put together: their contents in ascending order
/// of offset.
pub open spec fn assembled(parts: Seq<(nat, Seq<u8>)>) -> Seq<u8> {
    concat(by_offset(parts))
}

/// No part starts before an earlier one.
pub open spec fn ascending(parts: Seq<(nat, Seq<u8>)>) -> bool {
    forall|i: int, j: int|
        0 <= i < j < parts.len() ==> (#[trigger] parts[i]).0 <= (#[trigger] parts[j]).0
}

/// Every part starts after the one before.
pub open spec fn strictly_ascending(parts: Seq<(nat, Seq<u8>)>) -> bool {
    forall|i: int, j: int|
        0 <= i < j < parts.len() ==> (#[trigger] parts[i]).0 < (#[trigger] parts[j]).0
}

/// Where `part` lands: at `p`, when the parts from `p` on start after it and
/// the part before `p` does not.
proof fn lemma_place_at(sorted: Seq<(nat, Seq<u8>)>, part: (nat, Seq<u8>), p: int)
    requires
        0 <= p <= sorted.len(),
        forall|j: int| p <= j < sorted.len() ==> (#[trigger] sorted[j]).0 > part.0,
        p > 0 ==> sorted[p - 1].0 <= part.0,
    ensures
        place(sorted, part) == sorted.insert(p, part),
    decreases sorted.len() - p,
{
    if sorted.len() > p {
        let front = sorted.drop_last();
        assert(sorted.last() == sorted[sorted.len() - 1]);
        assert forall|j: int| p <= j < front.len() implies (#[trigger] front[j]).0 > part.0 by {
            assert(front[j] == sorted[j]);
        }
        if p > 0 {
            assert(front[p - 1] == sorted[p - 1]);
        }
        lemma_place_at(front, part, p);
        assert(front.insert(p, part).push(sorted.last()) =~= sorted.insert(p, part));
    } else {
        if p > 0 {
            assert(sorted.last() == sorted[p - 1]);
        }
        assert(sorted.insert(p, part) =~= sorted.push(part));
    }
}

/// Placing a part keeps the order and adds the part, nothing else.
proof fn lemma_place(sorted: Seq<(nat, Seq<u8>)>, part: (nat, Seq<u8>))
    requires
        ascending(sorted),
    ensures
        ascending(place(sorted, part)),
        place(sorted, part).to_multiset() == sorted.to_multiset().insert(part),
        place(sorted, part).len() == sorted.len() + 1,
        forall|k: int|
            0 <= k < sorted.len() + 1 ==> (#[trigger] place(sorted, part)[k]) == part || exists|
                j: int,
            |
                0 <= j < sorted.len() && sorted[j] == place(sorted, part)[k],
    decreases sorted.len(),
{
    broadcast use vstd::seq_lib::group_to_multiset_ensures;

    if sorted.len() > 0 && sorted.last().0 > part.0 {
        let front = sorted.drop_last();
        let last = sorted.last();
        assert(ascending(front)) by {
            assert forall|i: int, j: int| 0 <= i < j < front.len() implies (#[trigger] front[i]).0
                <= (#[trigger] front[j]).0 by {
                assert(front[i] == sorted[i] && front[j] == sorted[j]);
            }
        }
        lemma_place(front, part);
        let placed = place(front, part);
        let result = placed.push(last);
        assert forall|i: int, j: int| 0 <= i < j < result.len() implies (#[trigger] result[i]).0
            <= (#[trigger] result[j]).0 by {
            if j == placed.len() {
                assert(result[i] == placed[i]);
                if placed[i] != part {
                    let o = choose|o: int| 0 <= o < front.len() && front[o] == placed[i];
                    assert(sorted[o].0 <= sorted[sorted.len() - 1].0);
                }
            } else {
                assert(result[i] == placed[i] && result[j] == placed[j]);
            }
        }
        assert(front.push(last) =~= sorted);
        assert(result.to_multiset() =~= sorted.to_multiset().insert(part));
        assert forall|k: int| 0 <= k < sorted.len() + 1 implies (#[trigger] result[k]) == part
            || exists|j: int| 0 <= j < sorted.len() && sorted[j] == result[k] by {
            if k == placed.len() {
                assert(sorted[sorted.len() - 1] == result[k]);
            } else {
                assert(result[k] == placed[k]);
                if placed[k] != part {
                    let o = choose|o: int| 0 <= o < front.len() && front[o] == placed[k];
                    assert(sorted[o] == result[k]);
                }
            }
        }
    } else {
        let result = sorted.push(part);
        assert forall|i: int, j: int| 0 <= i < j < result.len() implies (#[trigger] result[i]).0
            <= (#[trigger] result[j]).0 by {
            if j == sorted.len() {
                assert(result[i] == sorted[i]);
                assert(sorted[i].0 <= sorted[sorted.len() - 1].0);
            } else {
                assert(result[i] == sorted[i] && result[j] == sorted[j]);
            }
        }
        assert forall|k: int| 0 <= k < sorted.len() + 1 implies (#[trigger] result[k]) == part
            || exists|j: int| 0 <= j < sorted.len() && sorted[j] == result[k] by {
            if k < sorted.len() {
                assert(sorted[k] == result[k]);
            }
        }
    }
}

/// Ordering by offset yields the same parts, in ascending order.
pub proof fn lemma_by_offset(parts: Seq<(nat, Seq<u8>)>)
    ensures
        ascending(by_offset(parts)),
        by_offset(parts).to_multiset() == parts.to_multiset(),
        by_offset(parts).len() == parts.len(),
    decreases parts.len(),
{
    broadcast use vstd::seq_lib::group_to_multiset_ensures;

    if parts.len() > 0 {
        let front = parts.drop_last();
        lemma_by_offset(front);
        lemma_place(by_offset(front), parts.last());
        assert(front.push(parts.last()) =~= parts);
    }
}

/// Two orders of the same parts are one order, when the parts start at
/// different offsets.
proof fn lemma_one_order(x: Seq<(nat, Seq<u8>)>, y: Seq<(nat, Seq<u8>)>)
    requires
        ascending(x),
        strictly_ascending(y),
        x.to_multiset() == y.to_multiset(),
    ensures
        x == y,
    decreases x.len(),
{
    broadcast use vstd::seq_lib::group_to_multiset_ensures;
    broadcast use vstd::multiset::group_multiset_axioms;

    assert(x.to_multiset().len() == x.len());
    assert(y.to_multiset().len() == y.len());
    if x.len() == 0 {
        assert(x =~= y);
    } else {
        let n = x.len() as int;
        let xl = x[n - 1];
        let yl = y[n - 1];
        assert(y.to_multiset().contains(xl));
        assert(x.to_multiset().contains(yl));
        let i = choose|i: int| 0 <= i < n && x[i] == yl;
        let j = choose|j: int| 0 <= j < n && y[j] == xl;
        if i < n - 1 {
            assert(x[i].0 <= x[n - 1].0);
        }
        if j < n - 1 {
            assert(y[j].0 < y[n - 1].0);
        }
        assert(xl == yl);
        let xf = x.drop_last();
        let yf = y.drop_last();
        assert(xf.push(xl) =~= x);
        assert(yf.push(yl) =~= y);
        assert(xf.to_multiset() =~= x.to_multiset().remove(xl));
        assert(yf.to_multiset() =~= y.to_multiset().remove(yl));
        assert(ascending(xf)) by {
            assert forall|a: int, b: int| 0 <= a < b < xf.len() implies (#[trigger] xf[a]).0 <= (
            #[trigger] xf[b]).0 by {
                assert(xf[a] == x[a] && xf[b] == x[b]);
            }
        }
        assert(strictly_ascending(yf)) by {
            assert forall|a: int, b: int| 0 <= a < b < yf.len() implies (#[trigger] yf[a]).0 < (
            #[trigger] yf[b]).0 by {
                assert(yf[a] == y[a] && yf[b] == y[b]);
            }
        }
        lemma_one_order(xf, yf);
    }
}

/// What reading the chunks of `plan` from `data` yields, in the order of
/// the plan.
pub open spec fn reads(plan: Seq<Chunk>, data: Seq<u8>) -> Seq<(nat, Seq<u8>)> {
    Seq::new(
        plan.len(),
        |i: int|
            (
                plan[i].offset as nat,
                data.subrange(plan[i].offset as int, plan[i].offset + plan[i].length),
            ),
    )
}

/// The chunks lengthen as they are counted.
proof fn lemma_length_before_grows(plan: Seq<Chunk>, i: int, j: int)
    requires
        0 <= i <= j <= plan.len(),
    ensures
        0 <= length_before(plan, i) <= length_before(plan, j),
    decreases j,
{
    if j > i {
        lemma_length_before_grows(plan, i, j - 1);
    } else if i > 0 {
        lemma_length_before_grows(plan, i - 1, i - 1);
    }
}

/// The reads of the first `k` chunks of a partition, one after the other,
/// are the bytes that these chunks cover.
proof fn lemma_reads_concat(plan: Seq<Chunk>, data: Seq<u8>, k: int)
    requires
        is_partition(plan, data.len()),
        0 <= k <= plan.len(),
    ensures
        concat(reads(plan, data).take(k)) == data.subrange(0, length_before(plan, k)),
    decreases k,
{
    let r = reads(plan, data).take(k);
    if k == 0 {
        assert(concat(r) =~= data.subrange(0, 0));
    } else {
        lemma_reads_concat(plan, data, k - 1);
        assert(r.drop_last() =~= reads(plan, data).take(k - 1));
        lemma_length_before_grows(plan, k, plan.len() as int);
        lemma_length_before_grows(plan, k - 1, k);
        let start = length_before(plan, k - 1);
        let end = length_before(plan, k);
        assert(plan[k - 1].offset == start);
        assert(r.last().1 == data.subrange(start, end));
        assert(concat(r) =~= data.subrange(0, end));
    }
}

/// Chunks read in any order make the file again: whenever `parts` are the
/// reads of a partition of `data`, in whatever order they arrived, putting
/// them together yields `data`.
pub proof fn lemma_assembly_restores(data: Seq<u8>, plan: Seq<Chunk>, parts: Seq<(nat, Seq<u8>)>)
    requires
        is_partition(plan, data.len()),
        parts.to_multiset() == reads(plan, data).to_multiset(),
    ensures
        assembled(parts) == data,
{
    let r = reads(plan, data);
    lemma_by_offset(parts);
    assert(strictly_ascending(r)) by {
        assert forall|i: int, j: int| 0 <= i < j < r.len() implies (#[trigger] r[i]).0 < (
        #[trigger] r[j]).0 by {
            lemma_length_before_grows(plan, i + 1, j);
            assert(plan[i].length > 0 && plan[j].length > 0);
        }
    }
    lemma_one_order(by_offset(parts), r);
    lemma_reads_concat(plan, data, plan.len() as int);
    assert(r.take(plan.len() as int) =~= r);
    assert(data.subrange(0, data.len() as int) =~= data);
}

/// The parts of `pv` in the order `order`.
spec fn picked(pv: Seq<(nat, Seq<u8>)>, order: Seq<usize>) -> Seq<(nat, Seq<u8>)> {
    Seq::new(order.len(), |j: int| pv[order[j] as int])
}

/// Puts the chunks together: their bytes in ascending order of offset,
/// whatever order they arrived in.
pub fn assemble(parts: &Vec<ChunkData>) -> (data: Vec<u8>)
    ensures
        data@ == assembled(parts_view(parts@)),
{
    let ghost pv = parts_view(parts@);
    let n = parts.len();
    let mut order: Vec<usize> = Vec::new();
    let mut k: usize = 0;
    assert(pv.take(0) =~= Seq::<(nat, Seq<u8>)>::empty());
    assert(picked(pv, order@) =~= by_offset(pv.take(0)));
    while k < n
        invariant
            k <= n,
            n == parts@.len(),
            pv == parts_view(parts@),
            order@.len() == k,
            forall|j: int| 0 <= j < order@.len() ==> (#[trigger] order@[j]) < n,
            picked(pv, order@) == by_offset(pv.take(k as int)),
        decreases n - k,
    {
        let ghost sorted = picked(pv, order@);
        let ghost old_order = order@;
        let mut p: usize = order.len();
        while p > 0 && parts[order[p - 1]].offset > parts[k].offset
            invariant
                p <= order@.len(),
                k < n,
                n == parts@.len(),
                pv == parts_view(parts@),
                sorted == picked(pv, order@),
                forall|j: int| 0 <= j < order@.len() ==> (#[trigger] order@[j]) < n,
                forall|j: int| p <= j < sorted.len() ==> (#[trigger] sorted[j]).0 > pv[k as int].0,
            decreases p,
        {
            p -= 1;
        }
        order.insert(p, k);
        proof {
            if p > 0 {
                assert(sorted[p - 1] == pv[old_order[p - 1] as int]);
            }
            lemma_place_at(sorted, pv[k as int], p as int);
            assert(picked(pv, order@) =~= sorted.insert(p as int, pv[k as int]));
            assert(pv.take(k + 1).drop_last() =~= pv.take(k as int));
            assert(pv.take(k + 1).last() == pv[k as int]);
        }
        k += 1;
    }
    assert(pv.take(n as int) =~= pv);
    let ghost sorted = by_offset(pv);
    let mut data: Vec<u8> = Vec::new();
    let mut j: usize = 0;
    assert(sorted.take(0) =~= Seq::<(nat, Seq<u8>)>::empty());
    while j < n
        invariant
            j <= n,
            n == parts@.len(),
            order@.len() == n,
            pv == parts_view(parts@),
            sorted == picked(pv, order@),
            forall|i: int| 0 <= i < order@.len() ==> (#[trigger] order@[i]) < n,
            data@ == concat(sorted.take(j as int)),
        decreases n - j,
    {
        let bytes = &parts[order[j]].bytes;
        let ghost before = data@;
        let mut b: usize = 0;
        while b < bytes.len()
            invariant
                b <= bytes@.len(),
                data@ == before + bytes@.take(b as int),
            decreases bytes@.len() - b,
        {
            data.push(bytes[b]);
            assert(data@ =~= before + bytes@.take(b + 1));
            b += 1;
        }
        proof {
            assert(bytes@.take(bytes@.len() as int) =~= bytes@);
            assert(sorted.take(j + 1).drop_last() =~= sorted.take(j as int));
            assert(sorted.take(j + 1).last().1 == bytes@);
        }
        j += 1;
    }
    assert(sorted.take(n as int) =~= sorted);
    data
}

} // verus!
