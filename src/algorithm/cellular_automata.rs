use ndarray::Array1;
use crate::algorithm::torus::{lemma_wrap_next, lemma_wrap_prev};
use vstd::prelude::*;

verus! {

/// A one-dimensional array of cells held in an `ndarray::Array1<u32>`.
#[verifier::external_body]
pub struct CellArray {
    inner: Array1<u32>,
}

/// The cells that an array holds, in index order.
pub uninterp spec fn cells_of(a: CellArray) -> Seq<u32>;

impl View for CellArray {
    type V = Seq<u32>;

    open spec fn view(&self) -> Seq<u32> {
        cells_of(*self)
    }
}

/// Relies on `Array1::from_vec`: a one-dimensional array of the vector's elements, in order.
#[verifier::external_body]
fn array_from_vec(v: Vec<u32>) -> (r: CellArray)
    ensures
        cells_of(r) == v@,
{
    CellArray { inner: Array1::from_vec(v) }
}

/// Relies on `ArrayBase::len`: the number of elements of the array.
#[verifier::external_body]
fn array_len(a: &CellArray) -> (r: usize)
    ensures
        r == cells_of(*a).len(),
{
    a.inner.len()
}

/// Relies on `Index<usize>` of `Array1`: the element at index `i`, which must be in bounds.
#[verifier::external_body]
fn array_get(a: &CellArray, i: usize) -> (r: u32)
    requires
        i < cells_of(*a).len(),
    ensures
        r == cells_of(*a)[i as int],
{
    a.inner[i]
}

/// Relies on `IndexMut<usize>` of `Array1`: overwrites the element at index `i`, which
/// must be in bounds, and no other.
#[verifier::external_body]
fn array_set(a: &mut CellArray, i: usize, v: u32)
    requires
        i < cells_of(*old(a)).len(),
    ensures
        cells_of(*final(a)) == cells_of(*old(a)).update(i as int, v),
{
    a.inner[i] = v;
}

impl CellArray {
    /// An array holding the given cells, in order.
    pub fn from_vec(cells: Vec<u32>) -> (r: CellArray)
        ensures
            r@ == cells@,
    {
        array_from_vec(cells)
    }

    /// The number of cells.
    pub fn len(&self) -> (r: usize)
        ensures
            r == self@.len(),
    {
        array_len(self)
    }

    /// The cell at index `i`.
    pub fn get(&self, i: usize) -> (r: u32)
        requires
            i < self@.len(),
        ensures
            r == self@[i as int],
    {
        array_get(self, i)
    }

    /// The cells, copied into a vector.
    pub fn to_vec(&self) -> (r: Vec<u32>)
        ensures
            r@ == self@,
    {
        let n = array_len(self);
        let mut out: Vec<u32> = Vec::with_capacity(n);
        let mut i: usize = 0;
        while i < n
            invariant
                n == self@.len(),
                i <= n,
                out@ == self@.subrange(0, i as int),
            decreases n - i,
        {
            out.push(array_get(self, i));
            i += 1;
        }
        assert(out@ =~= self@);
        out
    }
}

/// Every cell is 0 (dead) or 1 (alive).
pub open spec fn is_binary(s: Seq<u32>) -> bool {
    forall|i: int| 0 <= i < s.len() ==> s[i] <= 1
}

/// Bit `code` of the rule number: the next value of a cell whose neighbourhood code is `code`.
pub open spec fn rule_bit(rule: u8, code: u8) -> u32 {
    ((rule >> code) & 1u8) as u32
}

/// The neighbourhood code `4 * left + 2 * center + right` of cell `i`, where the left
/// neighbour of the first cell is the last cell and the right neighbour of the last is
/// the first.
pub open spec fn neighborhood_code(s: Seq<u32>, i: int) -> int {
    let n = s.len() as int;
    4 * s[(i + n - 1) % n] + 2 * s[i] + s[(i + 1) % n]
}

/// One tick of the automaton of number `rule` on a ring of cells.
pub open spec fn ca_step(rule: u8, s: Seq<u32>) -> Seq<u32> {
    Seq::new(s.len(), |i: int| rule_bit(rule, neighborhood_code(s, i) as u8))
}

/// `ticks` successive ticks of the automaton of number `rule`.
pub open spec fn ca_ticks(rule: u8, s: Seq<u32>, ticks: nat) -> Seq<u32>
    decreases ticks,
{
    if ticks == 0 {
        s
    } else {
        ca_step(rule, ca_ticks(rule, s, (ticks - 1) as nat))
    }
}

/// A tick yields 0s and 1s only.
pub proof fn lemma_ca_step_binary(rule: u8, s: Seq<u32>)
    ensures
        is_binary(ca_step(rule, s)),
{
    assert forall|i: int| 0 <= i < s.len() implies #[trigger] ca_step(rule, s)[i] <= 1 by {
        let code = neighborhood_code(s, i) as u8;
        assert((rule >> code) & 1u8 <= 1u8) by (bit_vector);
    }
}

/// The next value of the cell whose neighbourhood is `left`, `center`, `right`,
/// looked up in the rule table `rule`.
pub fn rule_output(rule: u8, left: u32, center: u32, right: u32) -> (r: u32)
    requires
        left <= 1,
        center <= 1,
        right <= 1,
    ensures
        r == rule_bit(rule, (4 * left + 2 * center + right) as u8),
        r <= 1,
{
    let code: u32 = 4 * left + 2 * center + right;
    let code8: u8 = code as u8;
    let bit: u8 = (rule >> code8) & 1u8;
    assert(bit <= 1) by (bit_vector)
        requires
            bit == (rule >> code8) & 1u8,
    ;
    if bit == 1 {
        1
    } else {
        0
    }
}

/// One tick of the elementary cellular automaton of number `rule` (Wolfram's coding).
///
/// The ring is made of the first `space_size` cells of `state.0`: the left neighbour of
/// cell 0 is cell `space_size - 1`, and the right neighbour of that cell is cell 0. The
/// next generation of the ring is written into the first `space_size` cells of `state.1`,
/// whose other cells are left as they are; then the two buffers are exchanged, so that
/// afterwards `state.0` holds the new generation and `state.1` the previous buffer.
pub fn cellular_automata(state: &mut (CellArray, CellArray), rule: u8, space_size: usize)
    requires
        space_size <= old(state).0@.len(),
        space_size <= old(state).1@.len(),
        is_binary(old(state).0@.subrange(0, space_size as int)),
    ensures
        final(state).0@.subrange(0, space_size as int) == ca_step(
            rule,
            old(state).0@.subrange(0, space_size as int),
        ),
        final(state).0@.len() == old(state).1@.len(),
        forall|i: int|
            space_size <= i < old(state).1@.len() ==> #[trigger] final(state).0@[i] == old(
                state,
            ).1@[i],
        final(state).1@ == old(state).0@,
        is_binary(final(state).0@.subrange(0, space_size as int)),
{
    let n = space_size;
    let ghost cur = state.0@;
    let ghost ring = cur.subrange(0, n as int);
    let ghost scratch = state.1@;
    let mut i: usize = 0;
    while i < n
        invariant
            n == space_size,
            cur == old(state).0@,
            scratch == old(state).1@,
            ring == cur.subrange(0, n as int),
            state.0@ == cur,
            n <= cur.len(),
            is_binary(ring),
            state.1@.len() == scratch.len(),
            n <= scratch.len(),
            i <= n,
            forall|k: int| 0 <= k < i ==> state.1@[k] == #[trigger] ca_step(rule, ring)[k],
            forall|k: int| i <= k < scratch.len() ==> #[trigger] state.1@[k] == scratch[k],
        decreases n - i,
    {
        let prev: usize = if i == 0 { n - 1 } else { i - 1 };
        let next: usize = if i + 1 == n { 0 } else { i + 1 };
        proof {
            lemma_wrap_prev(i as int, n as int);
            lemma_wrap_next(i as int, n as int);
        }
        let l = state.0.get(prev);
        let c = state.0.get(i);
        let r = state.0.get(next);
        proof {
            assert(l == ring[prev as int]);
            assert(c == ring[i as int]);
            assert(r == ring[next as int]);
        }
        let v = rule_output(rule, l, c, r);
        array_set(&mut state.1, i, v);
        i += 1;
    }
    assert(state.1@.subrange(0, n as int) =~= ca_step(rule, ring));
    proof {
        lemma_ca_step_binary(rule, ring);
    }
    std::mem::swap(&mut state.0, &mut state.1);
}

/// Any number of ticks keeps a ring of 0s and 1s a ring of 0s and 1s of the same length,
/// so that `cellular_automata` may be called again on its output.
pub proof fn lemma_ca_ticks_binary(rule: u8, s: Seq<u32>, ticks: nat)
    requires
        is_binary(s),
    ensures
        is_binary(ca_ticks(rule, s, ticks)),
        ca_ticks(rule, s, ticks).len() == s.len(),
    decreases ticks,
{
    if ticks > 0 {
        lemma_ca_ticks_binary(rule, s, (ticks - 1) as nat);
        lemma_ca_step_binary(rule, ca_ticks(rule, s, (ticks - 1) as nat));
    }
}

/// The `k`-th ring of a run of ticks is `ca_ticks` of its first ring.
proof fn lemma_run_is_ticks(rule: u8, a: Seq<Seq<u32>>, k: int)
    requires
        0 <= k < a.len(),
        forall|m: int| 0 <= m < a.len() - 1 ==> a[m + 1] == ca_step(rule, #[trigger] a[m]),
    ensures
        a[k] == ca_ticks(rule, a[0], k as nat),
    decreases k,
{
    if k > 0 {
        lemma_run_is_ticks(rule, a, k - 1);
        assert(a[k] == ca_step(rule, a[k - 1]));
    }
}

/// Determinism: two runs of the automaton of number `rule` that start from the same ring
/// and last the same number of ticks end in the same ring, namely `ca_ticks` of the start.
/// Each run is the sequence of rings it passes through.
pub proof fn lemma_ca_runs_agree(rule: u8, a: Seq<Seq<u32>>, b: Seq<Seq<u32>>)
    requires
        a.len() > 0,
        a.len() == b.len(),
        a[0] == b[0],
        forall|k: int| 0 <= k < a.len() - 1 ==> a[k + 1] == ca_step(rule, #[trigger] a[k]),
        forall|k: int| 0 <= k < b.len() - 1 ==> b[k + 1] == ca_step(rule, #[trigger] b[k]),
    ensures
        a.last() == b.last(),
        a.last() == ca_ticks(rule, a[0], (a.len() - 1) as nat),
{
    lemma_run_is_ticks(rule, a, a.len() - 1);
    lemma_run_is_ticks(rule, b, b.len() - 1);
}

} // verus!
