//! Packed memory layout of the aggregate states of one group.
//!
//! Every group owns one contiguous block. The block holds the state of each
//! aggregate function, in the order of the functions, each at the first offset
//! after its predecessor that its alignment allows.

use vstd::arithmetic::div_mod::{lemma_fundamental_div_mod, lemma_mod_multiples_basic};
use vstd::arithmetic::power2::is_pow2;
use vstd::prelude::*;

verus! {

/// Size and alignment, in bytes, of a region of aggregate state.
#[derive(Clone, Copy, Debug, PartialEq, Eq, Structural)]
pub struct StateLayout {
    pub size: usize,
    pub align: usize,
}

/// The smallest multiple of `align` that is at least `n`.
pub open spec fn align_up(n: int, align: int) -> int {
    if n % align == 0 {
        n
    } else {
        n + align - n % align
    }
}

/// Bytes taken by the states of `layouts` when packed in order from offset 0.
pub open spec fn packed_size(layouts: Seq<StateLayout>) -> int
    decreases layouts.len(),
{
    if layouts.len() == 0 {
        0
    } else {
        align_up(packed_size(layouts.drop_last()), layouts.last().align as int)
            + layouts.last().size
    }
}

/// Offset of the `i`-th state inside the packed block.
pub open spec fn packed_offset(layouts: Seq<StateLayout>, i: int) -> int {
    align_up(packed_size(layouts.take(i)), layouts[i].align as int)
}

/// The largest alignment among `layouts`, and 1 when there is none.
pub open spec fn packed_align(layouts: Seq<StateLayout>) -> int
    decreases layouts.len(),
{
    if layouts.len() == 0 {
        1
    } else {
        let rest = packed_align(layouts.drop_last());
        if layouts.last().align > rest {
            layouts.last().align as int
        } else {
            rest
        }
    }
}

/// Every alignment is a power of two.
pub open spec fn aligns_valid(layouts: Seq<StateLayout>) -> bool {
    forall|i: int| 0 <= i < layouts.len() ==> is_pow2(#[trigger] layouts[i].align as int)
}

impl StateLayout {
    /// A layout is valid when its alignment is a power of two.
    pub open spec fn spec_valid(&self) -> bool {
        is_pow2(self.align as int)
    }

    pub fn new(size: usize, align: usize) -> (layout: StateLayout)
        ensures
            layout.size == size,
            layout.align == align,
    {
        StateLayout { size, align }
    }

    /// Whether the alignment is a power of two.
    pub fn is_valid(&self) -> (valid: bool)
        ensures
            valid == self.spec_valid(),
    {
        is_power_of_two(self.align)
    }
}

/// Whether `n` is a power of two.
pub fn is_power_of_two(n: usize) -> (r: bool)
    ensures
        r == is_pow2(n as int),
{
    if n == 0 {
        reveal(is_pow2);
        return false;
    }
    let mut m: usize = n;
    while m % 2 == 0
        invariant
            0 < m <= n,
            is_pow2(m as int) == is_pow2(n as int),
        decreases m,
    {
        proof {
            reveal(is_pow2);
        }
        m = m / 2;
    }
    proof {
        reveal(is_pow2);
    }
    m == 1
}

/// The alignments of the machine's integers are powers of two.
pub proof fn lemma_small_powers()
    ensures
        is_pow2(1),
        is_pow2(2),
        is_pow2(4),
        is_pow2(8),
{
    reveal(is_pow2);
    assert(is_pow2(1));
    assert(is_pow2(2));
    assert(is_pow2(4));
    assert(is_pow2(8));
}

/// `align_up` returns a multiple of `align` in `[n, n + align)`.
pub proof fn lemma_align_up(n: int, align: int)
    requires
        0 <= n,
        0 < align,
    ensures
        n <= align_up(n, align) < n + align,
        align_up(n, align) % align == 0,
{
    let r = n % align;
    if r != 0 {
        assert((n + (align - r)) % align == 0) by (nonlinear_arith)
            requires
                r == n % align,
                0 < r < align,
                0 <= n,
        ;
    }
}

/// A power of two divides every power of two that is not smaller.
pub proof fn lemma_pow2_divides(a: int, b: int)
    requires
        is_pow2(a),
        is_pow2(b),
        a <= b,
    ensures
        b % a == 0,
    decreases a,
{
    reveal(is_pow2);
    if a > 1 {
        let (a2, b2) = (a / 2, b / 2);
        lemma_pow2_divides(a2, b2);
        lemma_fundamental_div_mod(b2, a2);
        let q = b2 / a2;
        assert(b == q * a) by (nonlinear_arith)
            requires
                a == 2 * a2,
                b == 2 * b2,
                b2 == a2 * q,
        ;
        lemma_mod_multiples_basic(q, a);
    }
}

/// A multiple of `b` is a multiple of every divisor `a` of `b`.
pub proof fn lemma_multiple_of_divisor(n: int, a: int, b: int)
    requires
        0 < a,
        0 < b,
        b % a == 0,
        n % b == 0,
        0 <= n,
    ensures
        n % a == 0,
{
    lemma_fundamental_div_mod(n, b);
    lemma_fundamental_div_mod(b, a);
    let (k, j) = (n / b, b / a);
    assert(n == (j * k) * a) by (nonlinear_arith)
        requires
            n == b * k,
            b == a * j,
    ;
    lemma_mod_multiples_basic(j * k, a);
}

/// The packed alignment is a power of two that every alignment divides.
pub proof fn lemma_packed_align(layouts: Seq<StateLayout>, i: int)
    requires
        aligns_valid(layouts),
        0 <= i < layouts.len(),
    ensures
        is_pow2(packed_align(layouts)),
        layouts[i].align <= packed_align(layouts),
        packed_align(layouts) % (layouts[i].align as int) == 0,
    decreases layouts.len(),
{
    lemma_packed_align_pow2(layouts);
    lemma_packed_align_bound(layouts, i);
    lemma_pow2_divides(layouts[i].align as int, packed_align(layouts));
}

proof fn lemma_packed_align_pow2(layouts: Seq<StateLayout>)
    requires
        aligns_valid(layouts),
    ensures
        is_pow2(packed_align(layouts)),
        packed_align(layouts) >= 1,
    decreases layouts.len(),
{
    reveal(is_pow2);
    if layouts.len() > 0 {
        let rest = layouts.drop_last();
        assert forall|j: int| 0 <= j < rest.len() implies is_pow2(
            #[trigger] rest[j].align as int,
        ) by {
            assert(rest[j] == layouts[j]);
        }
        lemma_packed_align_pow2(rest);
        assert(is_pow2(layouts[layouts.len() - 1].align as int));
    }
}

proof fn lemma_packed_align_bound(layouts: Seq<StateLayout>, i: int)
    requires
        0 <= i < layouts.len(),
    ensures
        layouts[i].align <= packed_align(layouts),
    decreases layouts.len(),
{
    if i < layouts.len() - 1 {
        let rest = layouts.drop_last();
        assert(rest[i] == layouts[i]);
        lemma_packed_align_bound(rest, i);
    }
}

/// Every state of a block lies at an address that is a multiple of its
/// alignment, where the block lies at one that is a multiple of the
/// alignment of the block.
pub proof fn law_states_aligned(layouts: Seq<StateLayout>, i: int, addr: int)
    requires
        aligns_valid(layouts),
        0 <= i < layouts.len(),
        0 <= addr,
        addr % packed_align(layouts) == 0,
    ensures
        (addr + packed_offset(layouts, i)) % (layouts[i].align as int) == 0,
{
    reveal(is_pow2);
    let align = layouts[i].align as int;
    let offset = packed_offset(layouts, i);
    assert forall|k: int| 0 <= k < layouts.len() implies (#[trigger] layouts[k]).align > 0 by {
        assert(is_pow2(layouts[k].align as int));
    }
    lemma_packed_align(layouts, i);
    lemma_multiple_of_divisor(addr, align, packed_align(layouts));
    lemma_packed_regions(layouts, i, i);
    lemma_fundamental_div_mod(addr, align);
    lemma_fundamental_div_mod(offset, align);
    let (a, b) = (addr / align, offset / align);
    assert(addr + offset == (a + b) * align) by (nonlinear_arith)
        requires
            addr == align * a,
            offset == align * b,
    ;
    lemma_mod_multiples_basic(a + b, align);
}

/// The packed size is never negative.
pub proof fn lemma_packed_size_nonnegative(layouts: Seq<StateLayout>)
    requires
        forall|k: int| 0 <= k < layouts.len() ==> (#[trigger] layouts[k]).align > 0,
    ensures
        0 <= packed_size(layouts),
    decreases layouts.len(),
{
    if layouts.len() > 0 {
        let rest = layouts.drop_last();
        assert forall|k: int| 0 <= k < rest.len() implies (#[trigger] rest[k]).align > 0 by {
            assert(rest[k] == layouts[k]);
        }
        lemma_packed_size_nonnegative(rest);
        lemma_align_up(packed_size(rest), layouts.last().align as int);
    }
}

/// The packed size grows with the number of states packed.
pub proof fn lemma_packed_size_monotonic(layouts: Seq<StateLayout>, i: int, j: int)
    requires
        forall|k: int| 0 <= k < j ==> (#[trigger] layouts[k]).align > 0,
        0 <= i <= j <= layouts.len(),
    ensures
        0 <= packed_size(layouts.take(i)) <= packed_size(layouts.take(j)),
    decreases j - i,
{
    let first = layouts.take(i);
    assert forall|k: int| 0 <= k < first.len() implies (#[trigger] first[k]).align > 0 by {
        assert(first[k] == layouts[k]);
    }
    lemma_packed_size_nonnegative(first);
    if i < j {
        lemma_packed_size_monotonic(layouts, i, j - 1);
        let t = layouts.take(j);
        assert(t.drop_last() =~= layouts.take(j - 1));
        assert(t.last() == layouts[j - 1]);
        lemma_align_up(packed_size(layouts.take(j - 1)), layouts[j - 1].align as int);
    }
}

/// The regions of a packed block are aligned, lie inside the block and do not
/// overlap: the state of an earlier function ends before that of a later one
/// begins.
pub proof fn lemma_packed_regions(layouts: Seq<StateLayout>, i: int, j: int)
    requires
        forall|k: int| 0 <= k < layouts.len() ==> (#[trigger] layouts[k]).align > 0,
        0 <= i <= j < layouts.len(),
    ensures
        0 <= packed_offset(layouts, i),
        packed_offset(layouts, i) % (layouts[i].align as int) == 0,
        packed_offset(layouts, j) + layouts[j].size <= packed_size(layouts),
        i < j ==> packed_offset(layouts, i) + layouts[i].size <= packed_offset(layouts, j),
{
    lemma_packed_size_monotonic(layouts, 0, i);
    lemma_align_up(packed_size(layouts.take(i)), layouts[i].align as int);
    lemma_packed_prefix_end(layouts, j);
    lemma_packed_size_monotonic(layouts, j + 1, layouts.len() as int);
    assert(layouts.take(layouts.len() as int) =~= layouts);
    if i < j {
        lemma_packed_prefix_end(layouts, i);
        lemma_packed_size_monotonic(layouts, i + 1, j);
        lemma_packed_size_monotonic(layouts, 0, j);
        lemma_align_up(packed_size(layouts.take(j)), layouts[j].align as int);
    }
}

/// The first `i + 1` states end where the `i`-th state ends.
pub proof fn lemma_packed_prefix_end(layouts: Seq<StateLayout>, i: int)
    requires
        0 <= i < layouts.len(),
    ensures
        packed_size(layouts.take(i + 1)) == packed_offset(layouts, i) + layouts[i].size,
{
    let t = layouts.take(i + 1);
    assert(t.drop_last() =~= layouts.take(i));
    assert(t.last() == layouts[i]);
}

/// Packs the states described by `layouts` into one block.
///
/// Returns the layout of the block and the offset of each state in it, or
/// `None` when an alignment is not a power of two or the block would not fit
/// in the address space.
pub fn get_layout_offsets(layouts: &Vec<StateLayout>) -> (r: Option<(StateLayout, Vec<usize>)>)
    ensures
        r.is_some() <==> aligns_valid(layouts@) && packed_size(layouts@) <= usize::MAX,
        r matches Some((block, offsets)) ==> {
            &&& block.size == packed_size(layouts@)
            &&& block.align == packed_align(layouts@)
            &&& offsets.len() == layouts.len()
            &&& forall|i: int|
                0 <= i < layouts.len() ==> #[trigger] offsets[i] == packed_offset(layouts@, i)
        },
{
    let mut max_align: usize = 1;
    let mut total_size: usize = 0;
    let mut offsets: Vec<usize> = Vec::new();
    let mut i: usize = 0;
    proof {
        assert(layouts@.take(0).len() == 0);
    }
    while i < layouts.len()
        invariant
            0 <= i <= layouts.len(),
            aligns_valid(layouts@.take(i as int)),
            total_size == packed_size(layouts@.take(i as int)),
            max_align == packed_align(layouts@.take(i as int)),
            offsets.len() == i,
            forall|k: int| 0 <= k < i ==> #[trigger] offsets[k] == packed_offset(layouts@, k),
        decreases layouts.len() - i,
    {
        let layout = layouts[i];
        let ghost prefix = layouts@.take(i as int);
        let ghost next = layouts@.take(i + 1);
        proof {
            assert(next.drop_last() =~= prefix);
            assert(next.last() == layout);
            assert(next[i as int] == layout);
        }
        if !is_power_of_two(layout.align) {
            proof {
                assert(layouts@[i as int] == layout);
            }
            return None;
        }
        proof {
            reveal(is_pow2);
            assert forall|k: int| 0 <= k < i + 1 implies (#[trigger] layouts@[k]).align > 0 by {
                assert(layouts@[k] == next[k]);
                if k < i {
                    assert(prefix[k] == next[k]);
                    assert(is_pow2(prefix[k].align as int));
                }
            }
            lemma_packed_size_monotonic(layouts@, 0, i as int);
            lemma_packed_size_monotonic_total(layouts@, i + 1);
            lemma_align_up(total_size as int, layout.align as int);
        }
        let rem = total_size % layout.align;
        let start = if rem == 0 {
            total_size
        } else {
            match total_size.checked_add(layout.align - rem) {
                Some(s) => s,
                None => { return None; },
            }
        };
        assert(start == packed_offset(layouts@, i as int));
        let end = match start.checked_add(layout.size) {
            Some(e) => e,
            None => { return None; },
        };
        offsets.push(start);
        if layout.align > max_align {
            max_align = layout.align;
        }
        total_size = end;
        proof {
            assert forall|k: int| 0 <= k < next.len() implies is_pow2(
                #[trigger] next[k].align as int,
            ) by {
                if k < i {
                    assert(prefix[k] == next[k]);
                }
            }
        }
        i += 1;
    }
    proof {
        assert(layouts@.take(layouts.len() as int) =~= layouts@);
    }
    Some((StateLayout { size: total_size, align: max_align }, offsets))
}

/// The states packed so far never take more room than the whole block, as
/// long as the alignments met so far are positive.
proof fn lemma_packed_size_monotonic_total(layouts: Seq<StateLayout>, n: int)
    requires
        0 <= n <= layouts.len(),
        forall|k: int| 0 <= k < n ==> (#[trigger] layouts[k]).align > 0,
    ensures
        aligns_valid(layouts) ==> packed_size(layouts.take(n)) <= packed_size(layouts),
{
    if aligns_valid(layouts) {
        reveal(is_pow2);
        assert forall|k: int| 0 <= k < layouts.len() implies (#[trigger] layouts[k]).align
            > 0 by {
            assert(is_pow2(layouts[k].align as int));
        }
        lemma_packed_size_monotonic(layouts, n, layouts.len() as int);
        assert(layouts.take(layouts.len() as int) =~= layouts);
    }
}

} // verus!
