//! The Tower of Hanoi demonstration program: three pegs held as stacks
//! that grow downwards from index 10, and the recursive solution.
use vstd::prelude::*;

verus! {

/// Disks, and slots per peg.
pub const STACK_SIZE: usize = 10;

/// Three pegs `a`, `b`, `c`; each peg's top disk sits at its `*_top` index
/// (`STACK_SIZE` for an empty peg). `count` numbers the moves made.
pub struct HanoiTowers {
    pub a: [i32; STACK_SIZE],
    pub b: [i32; STACK_SIZE],
    pub c: [i32; STACK_SIZE],
    pub a_top: usize,
    pub b_top: usize,
    pub c_top: usize,
    pub count: usize,
}

/// One peg after taking the top disk of `src` onto `dst`: nothing happens
/// from an empty `src`; with `dst` full the disk is lost.
pub open spec fn shifted(
    src: Seq<i32>,
    src_top: usize,
    dst: Seq<i32>,
    dst_top: usize,
    new_src: Seq<i32>,
    new_src_top: usize,
    new_dst: Seq<i32>,
    new_dst_top: usize,
) -> bool {
    if src_top < STACK_SIZE {
        &&& new_src == src.update(src_top as int, 0)
        &&& new_src_top == src_top + 1
        &&& dst_top > 0 ==> new_dst_top == dst_top - 1 && new_dst == dst.update(dst_top - 1, src[src_top as int])
        &&& dst_top == 0 ==> new_dst_top == dst_top && new_dst == dst
    } else {
        new_src == src && new_src_top == src_top && new_dst == dst && new_dst_top == dst_top
    }
}

fn shift(src: &mut [i32; STACK_SIZE], src_top: &mut usize, dst: &mut [i32; STACK_SIZE], dst_top: &mut usize)
    requires
        *old(src_top) <= STACK_SIZE,
        *old(dst_top) <= STACK_SIZE,
    ensures
        shifted(
            old(src)@,
            *old(src_top),
            old(dst)@,
            *old(dst_top),
            final(src)@,
            *final(src_top),
            final(dst)@,
            *final(dst_top),
        ),
{
    if *src_top < STACK_SIZE {
        let disk = src[*src_top];
        src[*src_top] = 0;
        *src_top = *src_top + 1;
        if *dst_top > 0 {
            *dst_top = *dst_top - 1;
            dst[*dst_top] = disk;
        }
    }
}

/// A peg name: 'A', 'B' or 'C'.
pub open spec fn is_peg(p: char) -> bool {
    p == 'A' || p == 'B' || p == 'C'
}

impl HanoiTowers {
    pub open spec fn wf(&self) -> bool {
        self.a_top <= STACK_SIZE && self.b_top <= STACK_SIZE && self.c_top <= STACK_SIZE
    }

    /// Contents and top index of peg `p`.
    pub open spec fn peg(&self, p: char) -> (Seq<i32>, usize) {
        if p == 'A' {
            (self.a@, self.a_top)
        } else if p == 'B' {
            (self.b@, self.b_top)
        } else {
            (self.c@, self.c_top)
        }
    }

    /// All disks on peg A, 1 (smallest) on top, no move made yet.
    pub fn new() -> (r: HanoiTowers)
        ensures
            r.wf(),
            forall|i: int| 0 <= i < STACK_SIZE ==> r.a@[i] == i + 1 && r.b@[i] == 0 && r.c@[i] == 0,
            r.a_top == 0 && r.b_top == STACK_SIZE && r.c_top == STACK_SIZE && r.count == 0,
    {
        let mut a = [0i32; STACK_SIZE];
        let mut i: usize = 0;
        while i < STACK_SIZE
            invariant
                0 <= i <= STACK_SIZE,
                forall|j: int| 0 <= j < i ==> a@[j] == j + 1,
            decreases STACK_SIZE - i,
        {
            a[i] = (i + 1) as i32;
            i = i + 1;
        }
        HanoiTowers {
            a,
            b: [0i32; STACK_SIZE],
            c: [0i32; STACK_SIZE],
            a_top: 0,
            b_top: STACK_SIZE,
            c_top: STACK_SIZE,
            count: 0,
        }
    }
}

/// Takes the top disk of peg `from` onto peg `to`; any other pair of names
/// leaves the towers alone.
pub fn transfer_disk(from: char, to: char, towers: &mut HanoiTowers)
    requires
        old(towers).wf(),
    ensures
        final(towers).wf(),
        final(towers).count == old(towers).count,
        is_peg(from) && is_peg(to) && from != to ==> {
            let (s, st) = old(towers).peg(from);
            let (d, dt) = old(towers).peg(to);
            let (ns, nst) = final(towers).peg(from);
            let (nd, ndt) = final(towers).peg(to);
            &&& shifted(s, st, d, dt, ns, nst, nd, ndt)
            &&& forall|p: char| is_peg(p) && p != from && p != to ==> final(towers).peg(p) == old(towers).peg(p)
        },
        !(is_peg(from) && is_peg(to) && from != to) ==> final(towers).a == old(towers).a && final(towers).b
            == old(towers).b && final(towers).c == old(towers).c && final(towers).a_top == old(towers).a_top
            && final(towers).b_top == old(towers).b_top && final(towers).c_top == old(towers).c_top,
{
    if from == 'A' && to == 'B' {
        shift(&mut towers.a, &mut towers.a_top, &mut towers.b, &mut towers.b_top);
    } else if from == 'A' && to == 'C' {
        shift(&mut towers.a, &mut towers.a_top, &mut towers.c, &mut towers.c_top);
    } else if from == 'B' && to == 'A' {
        shift(&mut towers.b, &mut towers.b_top, &mut towers.a, &mut towers.a_top);
    } else if from == 'B' && to == 'C' {
        shift(&mut towers.b, &mut towers.b_top, &mut towers.c, &mut towers.c_top);
    } else if from == 'C' && to == 'A' {
        shift(&mut towers.c, &mut towers.c_top, &mut towers.a, &mut towers.a_top);
    } else if from == 'C' && to == 'B' {
        shift(&mut towers.c, &mut towers.c_top, &mut towers.b, &mut towers.b_top);
    }
}

/// The moves that take `n` disks from `from` to `to` over `aux`.
pub open spec fn hanoi(n: nat, from: char, to: char, aux: char) -> Seq<(char, char)>
    decreases n,
{
    if n <= 1 {
        seq![(from, to)]
    } else {
        hanoi((n - 1) as nat, from, aux, to) + seq![(from, to)] + hanoi((n - 1) as nat, aux, to, from)
    }
}

/// 2 to the power `n`.
pub open spec fn pow2(n: nat) -> nat
    decreases n,
{
    if n == 0 {
        1
    } else {
        2 * pow2((n - 1) as nat)
    }
}

proof fn lemma_hanoi_len(n: nat, from: char, to: char, aux: char)
    requires
        n >= 1,
    ensures
        hanoi(n, from, to, aux).len() == pow2(n) - 1,
    decreases n,
{
    if n > 1 {
        lemma_hanoi_len((n - 1) as nat, from, aux, to);
        lemma_hanoi_len((n - 1) as nat, aux, to, from);
        assert(pow2(n) == 2 * pow2((n - 1) as nat));
    } else {
        assert(pow2(0) == 1);
        assert(pow2(1) == 2);
    }
}

/// Makes one numbered move.
pub fn move_one_disk(from: char, to: char, towers: &mut HanoiTowers)
    requires
        old(towers).wf(),
        old(towers).count < usize::MAX,
    ensures
        final(towers).wf(),
        final(towers).count == old(towers).count + 1,
{
    towers.count = towers.count + 1;
    transfer_disk(from, to, towers);
}

/// Moves `n` disks from `from` to `to` over `aux`, appending each move made
/// to `moves`.
pub fn move_disks(n: i32, from: char, to: char, aux: char, towers: &mut HanoiTowers, moves: &mut Vec<(char, char)>)
    requires
        n >= 1,
        old(towers).wf(),
        old(towers).count + pow2(n as nat) <= usize::MAX,
    ensures
        final(towers).wf(),
        final(moves)@ == old(moves)@ + hanoi(n as nat, from, to, aux),
        final(towers).count == old(towers).count + pow2(n as nat) - 1,
    decreases n,
{
    proof {
        lemma_hanoi_len(n as nat, from, to, aux);
    }
    if n == 1 {
        move_one_disk(from, to, towers);
        moves.push((from, to));
        assert(hanoi(1, from, to, aux) == seq![(from, to)]);
    } else {
        let ghost before = moves@;
        proof {
            assert(pow2(n as nat) == 2 * pow2((n - 1) as nat));
        }
        move_disks(n - 1, from, aux, to, towers, moves);
        move_one_disk(from, to, towers);
        moves.push((from, to));
        move_disks(n - 1, aux, to, from, towers, moves);
        assert(moves@ =~= before + hanoi(n as nat, from, to, aux));
    }
}

} // verus!
