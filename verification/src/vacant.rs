use vstd::prelude::*;

verus! {

/// A reclaimed byte range of the data region, available for reuse by future
/// writes.
#[derive(Clone, Copy, Debug, PartialEq, Eq, Structural)]
pub struct VacantBlock {
    pub pos: u64,
    pub size: u64,
}

impl VacantBlock {
    pub fn new(pos: u64, size: u64) -> (r: Self)
        ensures
            r.pos == pos,
            r.size == size,
    {
        Self { pos, size }
    }
}

/// Well-formedness of a vacant-block list: every block is non-empty and ends
/// within the 64-bit range, and the blocks are sorted by offset with a gap
/// between neighbours, so no two blocks overlap or are mutually adjacent.
pub open spec fn blocks_wf(vs: Seq<VacantBlock>) -> bool {
    &&& forall|i: int|
        0 <= i < vs.len() ==> (#[trigger] vs[i]).size > 0 && vs[i].pos + vs[i].size <= u64::MAX
    &&& forall|i: int| 0 <= i < vs.len() - 1 ==> (#[trigger] vs[i]).pos + vs[i].size < vs[i + 1].pos
}

/// Whether address `a` lies inside some block of `vs`.
pub open spec fn covers(vs: Seq<VacantBlock>, a: int) -> bool {
    exists|i: int| 0 <= i < vs.len() && (#[trigger] vs[i]).pos <= a < vs[i].pos + vs[i].size
}

/// In a well-formed list, any earlier block ends before a later one begins.
pub proof fn lemma_blocks_ordered(vs: Seq<VacantBlock>, i: int, j: int)
    requires
        blocks_wf(vs),
        0 <= i < j < vs.len(),
    ensures
        vs[i].pos + vs[i].size < vs[j].pos,
    decreases j - i,
{
    if j > i + 1 {
        lemma_blocks_ordered(vs, i, j - 1);
    }
}

/// No block of a well-formed list ends exactly where another begins.
pub proof fn lemma_no_mutual_adjacency(vs: Seq<VacantBlock>, i: int, j: int)
    requires
        blocks_wf(vs),
        0 <= i < vs.len(),
        0 <= j < vs.len(),
        i != j,
    ensures
        vs[i].pos + vs[i].size != vs[j].pos,
{
    if i < j {
        lemma_blocks_ordered(vs, i, j);
    } else {
        if j < i - 1 {
            lemma_blocks_ordered(vs, j, i);
        }
    }
}

/// The best-fit choice among the first `n` blocks: the index of the smallest
/// block of size at least `size`, ties broken towards the lowest offset, and
/// `-1` where none is large enough.
pub open spec fn best_fit_upto(vs: Seq<VacantBlock>, size: u64, n: int) -> int
    decreases n,
{
    if n <= 0 {
        -1
    } else {
        let prev = best_fit_upto(vs, size, n - 1);
        if vs[n - 1].size >= size && (prev == -1 || vs[n - 1].size < vs[prev].size) {
            n - 1
        } else {
            prev
        }
    }
}

/// The best-fit choice over the whole list.
pub open spec fn best_fit(vs: Seq<VacantBlock>, size: u64) -> int {
    best_fit_upto(vs, size, vs.len() as int)
}

proof fn lemma_best_fit_upto(vs: Seq<VacantBlock>, size: u64, n: int)
    requires
        0 <= n <= vs.len(),
    ensures
        ({
            let b = best_fit_upto(vs, size, n);
            &&& b == -1 ==> forall|i: int| 0 <= i < n ==> (#[trigger] vs[i]).size < size
            &&& b != -1 ==> 0 <= b < n && vs[b].size >= size
            &&& b != -1 ==> forall|i: int|
                0 <= i < n && (#[trigger] vs[i]).size >= size ==> vs[b].size <= vs[i].size && (
                vs[b].size == vs[i].size ==> b <= i)
        }),
    decreases n,
{
    if n > 0 {
        lemma_best_fit_upto(vs, size, n - 1);
    }
}

/// What `best_fit` promises: `-1` exactly when no block fits, and otherwise
/// the smallest fitting block at the lowest offset.
pub proof fn lemma_best_fit(vs: Seq<VacantBlock>, size: u64)
    ensures
        ({
            let b = best_fit(vs, size);
            &&& b == -1 ==> forall|i: int| 0 <= i < vs.len() ==> (#[trigger] vs[i]).size < size
            &&& b != -1 ==> 0 <= b < vs.len() && vs[b].size >= size
            &&& b != -1 ==> forall|i: int|
                0 <= i < vs.len() && (#[trigger] vs[i]).size >= size ==> vs[b].size <= vs[i].size
                    && (vs[b].size == vs[i].size ==> b <= i)
        }),
{
    lemma_best_fit_upto(vs, size, vs.len() as int);
}

/// The result of a best-fit allocation: the chosen offset, if any block is
/// large enough, and the list that remains, with the chosen block removed on
/// an exact fit and shrunk from the left otherwise.
pub open spec fn spec_alloc(vs: Seq<VacantBlock>, size: u64) -> (Option<u64>, Seq<VacantBlock>) {
    let j = best_fit(vs, size);
    if j == -1 {
        (None, vs)
    } else if vs[j].size == size {
        (Some(vs[j].pos), vs.remove(j))
    } else {
        (
            Some(vs[j].pos),
            vs.update(
                j,
                (VacantBlock { pos: (vs[j].pos + size) as u64, size: (vs[j].size - size) as u64 }),
            ),
        )
    }
}

/// Selects a vacant block of size at least `size`, best fit first, ties broken
/// by lowest offset.  On success the chosen block is split, keeping any
/// remainder as a smaller block at `offset + size`; `None` means no block is
/// large enough and the caller appends to the data region instead.
#[verifier::rlimit(100)]
#[verifier::spinoff_prover]
pub fn allocate(blocks: &mut Vec<VacantBlock>, size: u64) -> (r: Option<u64>)
    requires
        blocks_wf(old(blocks)@),
    ensures
        blocks_wf(final(blocks)@),
        (r, final(blocks)@) == spec_alloc(old(blocks)@, size),
        (r == None::<u64>) <==> (forall|i: int|
            0 <= i < old(blocks)@.len() ==> (#[trigger] old(blocks)@[i]).size < size),
        r == None::<u64> ==> final(blocks)@ == old(blocks)@,
        r matches Some(off) ==> off + size <= u64::MAX && (forall|a: int|
            off <= a < off + size ==> covers(old(blocks)@, a)),
        r matches Some(off) ==> (forall|a: int|
            covers(final(blocks)@, a) <==> (covers(old(blocks)@, a) && !(off <= a < off
                + size))),
{
    let ghost vs = blocks@;
    proof {
        lemma_best_fit(vs, size);
    }
    let best = find_best(blocks, size);
    match best {
        None => None,
        Some(j) => {
            let b = blocks[j];
            proof {
                assert(vs[j as int].size > 0 && vs[j as int].pos + vs[j as int].size <= u64::MAX);
            }
            if b.size == size {
                let _removed = blocks.remove(j);
                proof {
                    lemma_alloc_exact(vs, size, j as int);
                }
            } else {
                blocks[j] = VacantBlock { pos: b.pos + size, size: b.size - size };
                proof {
                    lemma_alloc_split(vs, size, j as int);
                }
            }
            Some(b.pos)
        },
    }
}

/// Scans for the best-fit block: the smallest of size at least `size`, ties
/// broken towards the lowest offset.
fn find_best(blocks: &Vec<VacantBlock>, size: u64) -> (r: Option<usize>)
    ensures
        match r {
            Some(b) => b < blocks@.len() && best_fit(blocks@, size) == b as int,
            None => best_fit(blocks@, size) == -1,
        },
{
    let n = blocks.len();
    let mut best: Option<usize> = None;
    let mut i: usize = 0;
    while i < n
        invariant
            n == blocks@.len(),
            i <= n,
            match best {
                Some(b) => b < i && best_fit_upto(blocks@, size, i as int) == b as int,
                None => best_fit_upto(blocks@, size, i as int) == -1,
            },
        decreases n - i,
    {
        let better = blocks[i].size >= size && (match best {
            Some(b) => blocks[i].size < blocks[b].size,
            None => true,
        });
        if better {
            best = Some(i);
        }
        i += 1;
    }
    best
}

proof fn lemma_alloc_exact(vs: Seq<VacantBlock>, size: u64, j: int)
    requires
        blocks_wf(vs),
        best_fit(vs, size) == j,
        0 <= j < vs.len(),
        vs[j].size == size,
    ensures
        blocks_wf(vs.remove(j)),
        forall|a: int| vs[j].pos <= a < vs[j].pos + size ==> covers(vs, a),
        forall|a: int|
            covers(vs.remove(j), a) <==> (covers(vs, a) && !(vs[j].pos <= a < vs[j].pos + size)),
{
    let new = vs.remove(j);
    assert forall|k: int| 0 <= k < new.len() - 1 implies (#[trigger] new[k]).pos + new[k].size
        < new[k + 1].pos by {
        if k < j - 1 {
            assert(new[k] == vs[k] && new[k + 1] == vs[k + 1]);
        } else if k == j - 1 {
            assert(new[k] == vs[k] && new[k + 1] == vs[j + 1]);
            lemma_blocks_ordered(vs, j - 1, j + 1);
        } else {
            assert(new[k] == vs[k + 1] && new[k + 1] == vs[k + 2]);
        }
    }
    assert forall|a: int| vs[j].pos <= a < vs[j].pos + size implies covers(vs, a) by {
        assert(0 <= j < vs.len() && vs[j].pos <= a < vs[j].pos + vs[j].size);
    }
    assert forall|a: int| covers(new, a) implies (covers(vs, a) && !(vs[j].pos <= a < vs[j].pos
        + size)) by {
        let k = choose|k: int| 0 <= k < new.len() && (#[trigger] new[k]).pos <= a < new[k].pos
            + new[k].size;
        let ko = if k < j {
            k
        } else {
            k + 1
        };
        assert(new[k] == vs[ko]);
        assert(vs[ko].pos <= a < vs[ko].pos + vs[ko].size);
        if ko < j {
            lemma_blocks_ordered(vs, ko, j);
        } else {
            lemma_blocks_ordered(vs, j, ko);
        }
    }
    assert forall|a: int| covers(vs, a) && !(vs[j].pos <= a < vs[j].pos + size) implies covers(
        new,
        a,
    ) by {
        let k = choose|k: int| 0 <= k < vs.len() && (#[trigger] vs[k]).pos <= a < vs[k].pos
            + vs[k].size;
        assert(k != j);
        let kn = if k < j {
            k
        } else {
            k - 1
        };
        assert(new[kn] == vs[k]);
        assert(new[kn].pos <= a < new[kn].pos + new[kn].size);
    }
}

proof fn lemma_alloc_split(vs: Seq<VacantBlock>, size: u64, j: int)
    requires
        blocks_wf(vs),
        best_fit(vs, size) == j,
        0 <= j < vs.len(),
        vs[j].size > size,
    ensures
        blocks_wf(
            vs.update(
                j,
                (VacantBlock { pos: (vs[j].pos + size) as u64, size: (vs[j].size - size) as u64 }),
            ),
        ),
        forall|a: int| vs[j].pos <= a < vs[j].pos + size ==> covers(vs, a),
        forall|a: int|
            covers(
                vs.update(
                    j,
                    (VacantBlock {
                        pos: (vs[j].pos + size) as u64,
                        size: (vs[j].size - size) as u64,
                    }),
                ),
                a,
            ) <==> (covers(vs, a) && !(vs[j].pos <= a < vs[j].pos + size)),
{
    let nb = VacantBlock { pos: (vs[j].pos + size) as u64, size: (vs[j].size - size) as u64 };
    let new = vs.update(j, nb);
    assert forall|k: int| 0 <= k < new.len() - 1 implies (#[trigger] new[k]).pos + new[k].size
        < new[k + 1].pos by {
        if k == j - 1 {
            assert(new[k] == vs[k] && new[k + 1] == nb);
        } else if k == j {
            assert(new[k] == nb && new[k + 1] == vs[k + 1]);
        } else {
            assert(new[k] == vs[k] && new[k + 1] == vs[k + 1]);
        }
    }
    assert forall|k: int| 0 <= k < new.len() implies (#[trigger] new[k]).size > 0 && new[k].pos
        + new[k].size <= u64::MAX by {
        if k != j {
            assert(new[k] == vs[k]);
        }
    }
    assert forall|a: int| vs[j].pos <= a < vs[j].pos + size implies covers(vs, a) by {
        assert(0 <= j < vs.len() && vs[j].pos <= a < vs[j].pos + vs[j].size);
    }
    assert forall|a: int| covers(new, a) implies (covers(vs, a) && !(vs[j].pos <= a < vs[j].pos
        + size)) by {
        let k = choose|k: int| 0 <= k < new.len() && (#[trigger] new[k]).pos <= a < new[k].pos
            + new[k].size;
        if k == j {
            assert(vs[j].pos <= a < vs[j].pos + vs[j].size);
        } else {
            assert(new[k] == vs[k]);
            assert(vs[k].pos <= a < vs[k].pos + vs[k].size);
            if k < j {
                lemma_blocks_ordered(vs, k, j);
            } else {
                lemma_blocks_ordered(vs, j, k);
            }
        }
    }
    assert forall|a: int| covers(vs, a) && !(vs[j].pos <= a < vs[j].pos + size) implies covers(
        new,
        a,
    ) by {
        let k = choose|k: int| 0 <= k < vs.len() && (#[trigger] vs[k]).pos <= a < vs[k].pos
            + vs[k].size;
        if k == j {
            assert(new[j].pos <= a < new[j].pos + new[j].size);
        } else {
            assert(new[k] == vs[k]);
            assert(new[k].pos <= a < new[k].pos + new[k].size);
        }
    }
}

pub open spec fn find_insert(vs: Seq<VacantBlock>, pos: u64, i: int) -> int
    decreases vs.len() - i,
{
    if i < 0 || i >= vs.len() {
        i
    } else if vs[i].pos < pos {
        find_insert(vs, pos, i + 1)
    } else {
        i
    }
}

/// Where a block at offset `pos` belongs in the sorted list: the index of the
/// first block at or beyond `pos`.
pub open spec fn insert_at(vs: Seq<VacantBlock>, pos: u64) -> int {
    find_insert(vs, pos, 0)
}

proof fn lemma_find_insert(vs: Seq<VacantBlock>, pos: u64, i: int)
    requires
        0 <= i <= vs.len(),
        forall|j: int| 0 <= j < i ==> (#[trigger] vs[j]).pos < pos,
    ensures
        ({
            let r = find_insert(vs, pos, i);
            &&& i <= r <= vs.len()
            &&& forall|j: int| 0 <= j < r ==> (#[trigger] vs[j]).pos < pos
            &&& r < vs.len() ==> vs[r].pos >= pos
        }),
    decreases vs.len() - i,
{
    if i < vs.len() && vs[i].pos < pos {
        lemma_find_insert(vs, pos, i + 1);
    }
}

/// What `insert_at` promises: all blocks before it start below `pos`, and the
/// block at it, if any, starts at or beyond `pos`.
pub proof fn lemma_insert_at(vs: Seq<VacantBlock>, pos: u64)
    ensures
        ({
            let r = insert_at(vs, pos);
            &&& 0 <= r <= vs.len()
            &&& forall|j: int| 0 <= j < r ==> (#[trigger] vs[j]).pos < pos
            &&& r < vs.len() ==> vs[r].pos >= pos
        }),
{
    lemma_find_insert(vs, pos, 0);
}

/// The list after giving the range `[pos, pos + size)` back: the range becomes
/// a block of its own, merged with the block ending at `pos` and the block
/// beginning at `pos + size` where they exist.  Freeing an empty range changes
/// nothing.
pub open spec fn spec_free(vs: Seq<VacantBlock>, pos: u64, size: u64) -> Seq<VacantBlock> {
    if size == 0 {
        vs
    } else {
        let i = insert_at(vs, pos);
        let ml = i > 0 && vs[i - 1].pos + vs[i - 1].size == pos;
        let mr = i < vs.len() && pos + size == vs[i].pos;
        if ml && mr {
            vs.update(
                i - 1,
                (VacantBlock {
                    pos: vs[i - 1].pos,
                    size: (vs[i - 1].size + size + vs[i].size) as u64,
                }),
            ).remove(i)
        } else if ml {
            vs.update(
                i - 1,
                (VacantBlock { pos: vs[i - 1].pos, size: (vs[i - 1].size + size) as u64 }),
            )
        } else if mr {
            vs.update(i, (VacantBlock { pos, size: (size + vs[i].size) as u64 }))
        } else {
            vs.insert(i, (VacantBlock { pos, size }))
        }
    }
}

/// Gives the range `[pos, pos + size)` back to the allocator, merging it with
/// any immediately adjacent block on either side, so that no two vacant
/// blocks are ever mutually adjacent.
#[verifier::rlimit(100)]
#[verifier::spinoff_prover]
pub fn free_block(blocks: &mut Vec<VacantBlock>, pos: u64, size: u64)
    requires
        blocks_wf(old(blocks)@),
        pos + size <= u64::MAX,
        size > 0 ==> forall|k: int|
            0 <= k < old(blocks)@.len() ==> (pos + size <= (#[trigger] old(blocks)@[k]).pos || old(
                blocks,
            )@[k].pos + old(blocks)@[k].size <= pos),
    ensures
        final(blocks)@ == spec_free(old(blocks)@, pos, size),
        blocks_wf(final(blocks)@),
        forall|a: int|
            covers(final(blocks)@, a) <==> (covers(old(blocks)@, a) || (pos <= a < pos + size)),
{
    let ghost vs = blocks@;
    if size == 0 {
        return ;
    }
    let n = blocks.len();
    let mut i: usize = 0;
    while i < n && blocks[i].pos < pos
        invariant
            blocks@ == vs,
            n == vs.len(),
            i <= n,
            forall|j: int| 0 <= j < i ==> (#[trigger] vs[j]).pos < pos,
            find_insert(vs, pos, 0) == find_insert(vs, pos, i as int),
        decreases n - i,
    {
        i += 1;
    }
    proof {
        lemma_insert_at(vs, pos);
        assert(insert_at(vs, pos) == i as int);
    }
    let ml = i > 0 && blocks[i - 1].pos + blocks[i - 1].size == pos;
    let mr = i < n && pos + size == blocks[i].pos;
    if ml && mr {
        let left = blocks[i - 1];
        let right = blocks[i];
        proof {
            assert(vs[i as int].pos + vs[i as int].size <= u64::MAX);
        }
        blocks[i - 1] = VacantBlock { pos: left.pos, size: left.size + size + right.size };
        let _removed = blocks.remove(i);
        proof {
            lemma_free_wf(vs, pos, size);
        }
    } else if ml {
        let left = blocks[i - 1];
        blocks[i - 1] = VacantBlock { pos: left.pos, size: left.size + size };
        proof {
            lemma_free_wf(vs, pos, size);
        }
    } else if mr {
        let right = blocks[i];
        blocks[i] = VacantBlock { pos, size: size + right.size };
        proof {
            lemma_free_wf(vs, pos, size);
        }
    } else {
        blocks.insert(i, VacantBlock { pos, size });
        proof {
            lemma_free_wf(vs, pos, size);
        }
    }
}

#[verifier::rlimit(100)]
#[verifier::spinoff_prover]
proof fn lemma_free_wf(vs: Seq<VacantBlock>, pos: u64, size: u64)
    requires
        blocks_wf(vs),
        size > 0,
        pos + size <= u64::MAX,
        forall|k: int|
            0 <= k < vs.len() ==> (pos + size <= (#[trigger] vs[k]).pos || vs[k].pos + vs[k].size
                <= pos),
    ensures
        blocks_wf(spec_free(vs, pos, size)),
        forall|a: int|
            covers(spec_free(vs, pos, size), a) <==> (covers(vs, a) || (pos <= a < pos + size)),
{
    lemma_insert_at(vs, pos);
    let i = insert_at(vs, pos);
    assert forall|j: int| 0 <= j < i implies (#[trigger] vs[j]).pos + vs[j].size <= pos by {}
    assert forall|j: int| i <= j < vs.len() implies pos + size <= (#[trigger] vs[j]).pos by {
        if j > i {
            lemma_blocks_ordered(vs, i, j);
        }
        assert(vs[j].pos >= pos);
        assert(vs[j].size > 0);
    }
    let ml = i > 0 && vs[i - 1].pos + vs[i - 1].size == pos;
    let mr = i < vs.len() && pos + size == vs[i].pos;
    let new = spec_free(vs, pos, size);
    // Each block of the new list, with its range, against the old list.
    if ml && mr {
        let merged = VacantBlock {
            pos: vs[i - 1].pos,
            size: (vs[i - 1].size + size + vs[i].size) as u64,
        };
        assert(new == vs.update(i - 1, merged).remove(i));
        assert(new.len() == vs.len() - 1);
        assert forall|k: int| 0 <= k < new.len() implies (#[trigger] new[k]) == (if k == i - 1 {
            merged
        } else if k < i - 1 {
            vs[k]
        } else {
            vs[k + 1]
        }) by {}
        assert(merged.pos + merged.size == vs[i].pos + vs[i].size);
        assert forall|k: int| 0 <= k < new.len() implies (#[trigger] new[k]).size > 0 && new[k].pos
            + new[k].size <= u64::MAX by {}
        assert forall|k: int| 0 <= k < new.len() - 1 implies (#[trigger] new[k]).pos + new[k].size
            < new[k + 1].pos by {
            if k == i - 2 {
                assert(new[k] == vs[k] && new[k + 1] == merged);
            } else if k == i - 1 {
                assert(new[k] == merged && new[k + 1] == vs[i + 1]);
            }
        }
        assert forall|a: int| covers(new, a) implies (covers(vs, a) || (pos <= a < pos
            + size)) by {
            let k = choose|k: int| 0 <= k < new.len() && (#[trigger] new[k]).pos <= a < new[k].pos
                + new[k].size;
            if k == i - 1 {
                if a < pos {
                    assert(vs[i - 1].pos <= a < vs[i - 1].pos + vs[i - 1].size);
                } else if a >= pos + size {
                    assert(vs[i].pos <= a < vs[i].pos + vs[i].size);
                }
            } else if k < i - 1 {
                assert(vs[k].pos <= a < vs[k].pos + vs[k].size);
            } else {
                assert(vs[k + 1].pos <= a < vs[k + 1].pos + vs[k + 1].size);
            }
        }
        assert forall|a: int| (covers(vs, a) || (pos <= a < pos + size)) implies covers(
            new,
            a,
        ) by {
            if pos <= a < pos + size {
                assert(new[i - 1].pos <= a < new[i - 1].pos + new[i - 1].size);
            } else {
                let k = choose|k: int| 0 <= k < vs.len() && (#[trigger] vs[k]).pos <= a < vs[k].pos
                    + vs[k].size;
                if k == i - 1 || k == i {
                    assert(new[i - 1].pos <= a < new[i - 1].pos + new[i - 1].size);
                } else if k < i - 1 {
                    assert(new[k].pos <= a < new[k].pos + new[k].size);
                } else {
                    assert(new[k - 1].pos <= a < new[k - 1].pos + new[k - 1].size);
                }
            }
        }
    } else if ml {
        let merged = VacantBlock { pos: vs[i - 1].pos, size: (vs[i - 1].size + size) as u64 };
        assert(new == vs.update(i - 1, merged));
        assert(merged.pos + merged.size == pos + size);
        assert forall|k: int| 0 <= k < new.len() - 1 implies (#[trigger] new[k]).pos + new[k].size
            < new[k + 1].pos by {
            if k == i - 1 {
                assert(new[k] == merged && new[k + 1] == vs[i]);
                assert(pos + size < vs[i].pos || pos + size == vs[i].pos);
                assert(!mr);
            } else if k == i - 2 {
                assert(new[k] == vs[k] && new[k + 1] == merged);
            }
        }
        assert forall|a: int| covers(new, a) implies (covers(vs, a) || (pos <= a < pos
            + size)) by {
            let k = choose|k: int| 0 <= k < new.len() && (#[trigger] new[k]).pos <= a < new[k].pos
                + new[k].size;
            if k == i - 1 {
                if a < pos {
                    assert(vs[i - 1].pos <= a < vs[i - 1].pos + vs[i - 1].size);
                }
            } else {
                assert(vs[k].pos <= a < vs[k].pos + vs[k].size);
            }
        }
        assert forall|a: int| (covers(vs, a) || (pos <= a < pos + size)) implies covers(
            new,
            a,
        ) by {
            if pos <= a < pos + size {
                assert(new[i - 1].pos <= a < new[i - 1].pos + new[i - 1].size);
            } else {
                let k = choose|k: int| 0 <= k < vs.len() && (#[trigger] vs[k]).pos <= a < vs[k].pos
                    + vs[k].size;
                if k == i - 1 {
                    assert(new[i - 1].pos <= a < new[i - 1].pos + new[i - 1].size);
                } else {
                    assert(new[k].pos <= a < new[k].pos + new[k].size);
                }
            }
        }
    } else if mr {
        let merged = VacantBlock { pos, size: (size + vs[i].size) as u64 };
        assert(new == vs.update(i, merged));
        assert(merged.pos + merged.size == vs[i].pos + vs[i].size);
        assert forall|k: int| 0 <= k < new.len() - 1 implies (#[trigger] new[k]).pos + new[k].size
            < new[k + 1].pos by {
            if k == i {
                assert(new[k] == merged && new[k + 1] == vs[i + 1]);
            } else if k == i - 1 {
                assert(new[k] == vs[k] && new[k + 1] == merged);
                assert(vs[k].pos + vs[k].size <= pos);
                assert(vs[k].pos + vs[k].size != pos);
            }
        }
        assert forall|a: int| covers(new, a) implies (covers(vs, a) || (pos <= a < pos
            + size)) by {
            let k = choose|k: int| 0 <= k < new.len() && (#[trigger] new[k]).pos <= a < new[k].pos
                + new[k].size;
            if k == i {
                if a >= pos + size {
                    assert(vs[i].pos <= a < vs[i].pos + vs[i].size);
                }
            } else {
                assert(vs[k].pos <= a < vs[k].pos + vs[k].size);
            }
        }
        assert forall|a: int| (covers(vs, a) || (pos <= a < pos + size)) implies covers(
            new,
            a,
        ) by {
            if pos <= a < pos + size {
                assert(new[i].pos <= a < new[i].pos + new[i].size);
            } else {
                let k = choose|k: int| 0 <= k < vs.len() && (#[trigger] vs[k]).pos <= a < vs[k].pos
                    + vs[k].size;
                if k == i {
                    assert(new[i].pos <= a < new[i].pos + new[i].size);
                } else {
                    assert(new[k].pos <= a < new[k].pos + new[k].size);
                }
            }
        }
    } else {
        let nb = VacantBlock { pos, size };
        assert(new == vs.insert(i, nb));
        assert forall|k: int| 0 <= k < new.len() implies (#[trigger] new[k]) == (if k < i {
            vs[k]
        } else if k == i {
            nb
        } else {
            vs[k - 1]
        }) by {}
        assert forall|k: int| 0 <= k < new.len() - 1 implies (#[trigger] new[k]).pos + new[k].size
            < new[k + 1].pos by {
            if k == i - 1 {
                assert(new[k] == vs[k] && new[k + 1] == nb);
                assert(vs[k].pos + vs[k].size <= pos);
                assert(vs[k].pos + vs[k].size != pos);
            } else if k == i {
                assert(new[k] == nb && new[k + 1] == vs[i]);
                assert(pos + size <= vs[i].pos);
                assert(pos + size != vs[i].pos);
            }
        }
        assert forall|a: int| covers(new, a) implies (covers(vs, a) || (pos <= a < pos
            + size)) by {
            let k = choose|k: int| 0 <= k < new.len() && (#[trigger] new[k]).pos <= a < new[k].pos
                + new[k].size;
            if k < i {
                assert(vs[k].pos <= a < vs[k].pos + vs[k].size);
            } else if k > i {
                assert(vs[k - 1].pos <= a < vs[k - 1].pos + vs[k - 1].size);
            }
        }
        assert forall|a: int| (covers(vs, a) || (pos <= a < pos + size)) implies covers(
            new,
            a,
        ) by {
            if pos <= a < pos + size {
                assert(new[i].pos <= a < new[i].pos + new[i].size);
            } else {
                let k = choose|k: int| 0 <= k < vs.len() && (#[trigger] vs[k]).pos <= a < vs[k].pos
                    + vs[k].size;
                if k < i {
                    assert(new[k].pos <= a < new[k].pos + new[k].size);
                } else {
                    assert(new[k + 1].pos <= a < new[k + 1].pos + new[k + 1].size);
                }
            }
        }
    }
}

} // verus!
