//! Which instruction ends a block: the rule by which `[` and `]` are matched,
//! stated for any pair of instructions and for both directions, and what
//! follows from it.

use vstd::prelude::*;

verus! {

/// How much deeper the nesting is after `instr` than before it, in a scan
/// where `start_instr` opens a nested block and `end_instr` closes one.
pub open spec fn nesting_change(instr: u8, start_instr: u8, end_instr: u8) -> int {
    if instr == end_instr {
        -1
    } else if instr == start_instr {
        1
    } else {
        0
    }
}

/// The index that a scan looks at after `n` steps from `from`.
pub open spec fn scan_pos(from: int, backward: bool, n: nat) -> int {
    if backward {
        from - n
    } else {
        from + n
    }
}

/// The nesting depth once a scan that began at `from` has passed `n`
/// instructions: the blocks opened among them minus the blocks closed.
pub open spec fn depth_after(
    code: Seq<u8>,
    start_instr: u8,
    end_instr: u8,
    from: int,
    backward: bool,
    n: nat,
) -> int
    decreases n,
{
    if n == 0 {
        0
    } else {
        depth_after(code, start_instr, end_instr, from, backward, (n - 1) as nat) + nesting_change(
            code[scan_pos(from, backward, (n - 1) as nat)],
            start_instr,
            end_instr,
        )
    }
}

/// After `n` steps the scan, which began inside the code, stands on an
/// `end_instr` at depth zero.
pub open spec fn ends_block(
    code: Seq<u8>,
    start_instr: u8,
    end_instr: u8,
    from: int,
    backward: bool,
    n: nat,
) -> bool {
    let pos = scan_pos(from, backward, n);
    &&& 0 <= from < code.len()
    &&& 0 <= pos < code.len()
    &&& code[pos] == end_instr
    &&& depth_after(code, start_instr, end_instr, from, backward, n) == 0
}

/// The scan from `from` meets the end of the block it started in after
/// exactly `n` steps, and not before.
pub open spec fn first_block_end(
    code: Seq<u8>,
    start_instr: u8,
    end_instr: u8,
    from: int,
    backward: bool,
    n: nat,
) -> bool {
    &&& ends_block(code, start_instr, end_instr, from, backward, n)
    &&& forall|k: nat| k < n ==> !ends_block(code, start_instr, end_instr, from, backward, k)
}

/// The index of the instruction that ends the block in which a scan from
/// `from` starts, or `None` when the code runs out first.
pub open spec fn block_end(
    code: Seq<u8>,
    start_instr: u8,
    end_instr: u8,
    from: int,
    backward: bool,
) -> Option<int> {
    if exists|n: nat| first_block_end(code, start_instr, end_instr, from, backward, n) {
        Some(
            scan_pos(
                from,
                backward,
                choose|n: nat| first_block_end(code, start_instr, end_instr, from, backward, n),
            ),
        )
    } else {
        None
    }
}

/// Where a scan finds its block end, an `end_instr` stands in the code.
pub proof fn lemma_block_end_in_code(
    code: Seq<u8>,
    start_instr: u8,
    end_instr: u8,
    from: int,
    backward: bool,
)
    ensures
        block_end(code, start_instr, end_instr, from, backward) matches Some(pos) ==> {
            &&& 0 <= pos < code.len()
            &&& code[pos] == end_instr
            &&& if backward {
                pos <= from
            } else {
                from <= pos
            }
        },
{
    if exists|n: nat| first_block_end(code, start_instr, end_instr, from, backward, n) {
        let n = choose|n: nat| first_block_end(code, start_instr, end_instr, from, backward, n);
        assert(ends_block(code, start_instr, end_instr, from, backward, n));
    }
}

/// The number of steps after which a scan that has a block end finds it.
pub proof fn lemma_block_end_steps(
    code: Seq<u8>,
    start_instr: u8,
    end_instr: u8,
    from: int,
    backward: bool,
) -> (n: nat)
    requires
        block_end(code, start_instr, end_instr, from, backward) is Some,
    ensures
        first_block_end(code, start_instr, end_instr, from, backward, n),
        block_end(code, start_instr, end_instr, from, backward) == Some(
            scan_pos(from, backward, n),
        ),
{
    choose|n: nat| first_block_end(code, start_instr, end_instr, from, backward, n)
}

/// A scan has at most one first block end.
pub proof fn lemma_block_end_is(
    code: Seq<u8>,
    start_instr: u8,
    end_instr: u8,
    from: int,
    backward: bool,
    n: nat,
)
    requires
        first_block_end(code, start_instr, end_instr, from, backward, n),
    ensures
        block_end(code, start_instr, end_instr, from, backward) == Some(
            scan_pos(from, backward, n),
        ),
{
    let m = choose|m: nat| first_block_end(code, start_instr, end_instr, from, backward, m);
    assert(first_block_end(code, start_instr, end_instr, from, backward, m));
    if m < n {
        assert(!ends_block(code, start_instr, end_instr, from, backward, m));
    }
    if n < m {
        assert(!ends_block(code, start_instr, end_instr, from, backward, n));
    }
}

/// A scan that never stands on a block end has none.
pub proof fn lemma_block_end_none(
    code: Seq<u8>,
    start_instr: u8,
    end_instr: u8,
    from: int,
    backward: bool,
)
    requires
        forall|n: nat| !ends_block(code, start_instr, end_instr, from, backward, n),
    ensures
        block_end(code, start_instr, end_instr, from, backward) is None,
{
}

/// Up to the end of its block a scan is never at a negative depth: every
/// `end_instr` that it passes closes a block that was opened on the way.
pub proof fn lemma_depth_in_block(
    code: Seq<u8>,
    start_instr: u8,
    end_instr: u8,
    from: int,
    backward: bool,
    n: nat,
    k: nat,
)
    requires
        first_block_end(code, start_instr, end_instr, from, backward, n),
        k <= n,
    ensures
        depth_after(code, start_instr, end_instr, from, backward, k) >= 0,
    decreases k,
{
    if k > 0 {
        let j = (k - 1) as nat;
        lemma_depth_in_block(code, start_instr, end_instr, from, backward, n, j);
        assert(!ends_block(code, start_instr, end_instr, from, backward, j));
    }
}

/// The index next to `pos` against the direction of a scan: where the scan
/// was one step earlier.
pub open spec fn turn_back(pos: int, backward: bool) -> int {
    if backward {
        pos + 1
    } else {
        pos - 1
    }
}

/// Going back over a block, with the two instructions in each other's role,
/// the depth after `m` steps is the depth that the first scan had `m` steps
/// before its end.
proof fn lemma_depth_mirrored(
    code: Seq<u8>,
    start_instr: u8,
    end_instr: u8,
    from: int,
    backward: bool,
    n: nat,
    m: nat,
)
    requires
        start_instr != end_instr,
        m <= n,
    ensures
        depth_after(
            code,
            end_instr,
            start_instr,
            turn_back(scan_pos(from, backward, n), backward),
            !backward,
            m,
        ) == depth_after(code, start_instr, end_instr, from, backward, (n - m) as nat)
            - depth_after(code, start_instr, end_instr, from, backward, n),
    decreases m,
{
    if m > 0 {
        let back_from = turn_back(scan_pos(from, backward, n), backward);
        lemma_depth_mirrored(code, start_instr, end_instr, from, backward, n, (m - 1) as nat);
        assert(scan_pos(back_from, !backward, (m - 1) as nat) == scan_pos(
            from,
            backward,
            (n - m) as nat,
        ));
        assert(depth_after(code, start_instr, end_instr, from, backward, (n - m + 1) as nat)
            == depth_after(code, start_instr, end_instr, from, backward, (n - m) as nat)
            + nesting_change(
            code[scan_pos(from, backward, (n - m) as nat)],
            start_instr,
            end_instr,
        ));
    }
}

/// Brackets pair up. Take the instruction that ends a block and scan from it
/// in the other direction, with the two instructions in each other's role:
/// the scan ends at the instruction that opened the block, and nowhere
/// before it. So no bracket is matched to the bracket of another block.
pub proof fn lemma_scan_back(
    code: Seq<u8>,
    start_instr: u8,
    end_instr: u8,
    from: int,
    backward: bool,
    n: nat,
)
    requires
        start_instr != end_instr,
        first_block_end(code, start_instr, end_instr, from, backward, n),
        0 <= turn_back(from, backward) < code.len(),
        code[turn_back(from, backward)] == start_instr,
    ensures
        first_block_end(
            code,
            end_instr,
            start_instr,
            turn_back(scan_pos(from, backward, n), backward),
            !backward,
            n,
        ),
        scan_pos(turn_back(scan_pos(from, backward, n), backward), !backward, n) == turn_back(
            from,
            backward,
        ),
{
    let back_from = turn_back(scan_pos(from, backward, n), backward);
    let other_way = !backward;
    lemma_depth_mirrored(code, start_instr, end_instr, from, backward, n, n);
    assert forall|m: nat| m < n implies !ends_block(
        code,
        end_instr,
        start_instr,
        back_from,
        other_way,
        m,
    ) by {
        let k = (n - 1 - m) as nat;
        lemma_depth_mirrored(code, start_instr, end_instr, from, backward, n, m);
        lemma_depth_in_block(code, start_instr, end_instr, from, backward, n, k);
        assert(scan_pos(back_from, !backward, m) == scan_pos(from, backward, k));
        assert(depth_after(code, start_instr, end_instr, from, backward, (k + 1) as nat)
            == depth_after(code, start_instr, end_instr, from, backward, k) + nesting_change(
            code[scan_pos(from, backward, k)],
            start_instr,
            end_instr,
        ));
    }
}

/// The depth after `a + b` steps is the depth after `a` steps plus the depth
/// that a scan from there has after `b` steps.
pub proof fn lemma_depth_split(
    code: Seq<u8>,
    start_instr: u8,
    end_instr: u8,
    from: int,
    backward: bool,
    a: nat,
    b: nat,
)
    ensures
        depth_after(code, start_instr, end_instr, from, backward, a + b) == depth_after(
            code,
            start_instr,
            end_instr,
            from,
            backward,
            a,
        ) + depth_after(
            code,
            start_instr,
            end_instr,
            scan_pos(from, backward, a),
            backward,
            b,
        ),
    decreases b,
{
    if b > 0 {
        lemma_depth_split(code, start_instr, end_instr, from, backward, a, (b - 1) as nat);
        assert(scan_pos(scan_pos(from, backward, a), backward, (b - 1) as nat) == scan_pos(
            from,
            backward,
            (a + b - 1) as nat,
        ));
    }
}

/// Blocks are nested, never interleaved. If a scan passes a `start_instr`
/// after `k` steps, before the end of its own block, then the block that
/// this `start_instr` opens ends before the scan's own block does.
pub proof fn lemma_inner_block_ends_inside(
    code: Seq<u8>,
    start_instr: u8,
    end_instr: u8,
    from: int,
    backward: bool,
    n: nat,
    k: nat,
    inner: nat,
)
    requires
        start_instr != end_instr,
        first_block_end(code, start_instr, end_instr, from, backward, n),
        k < n,
        code[scan_pos(from, backward, k)] == start_instr,
        first_block_end(
            code,
            start_instr,
            end_instr,
            scan_pos(from, backward, k + 1),
            backward,
            inner,
        ),
    ensures
        k + 1 + inner < n,
{
    if k + 1 + inner >= n {
        let rest = (n - k - 1) as nat;
        let inner_from = scan_pos(from, backward, k + 1);
        lemma_depth_split(code, start_instr, end_instr, from, backward, k + 1, rest);
        lemma_depth_in_block(code, start_instr, end_instr, from, backward, n, k);
        lemma_depth_in_block(code, start_instr, end_instr, inner_from, backward, inner, rest);
        assert(depth_after(code, start_instr, end_instr, from, backward, k + 1) == depth_after(
            code,
            start_instr,
            end_instr,
            from,
            backward,
            k,
        ) + 1);
        assert(depth_after(code, start_instr, end_instr, from, backward, n) == 0);
    }
}

} // verus!
