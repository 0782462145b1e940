//! Physical addresses and the arithmetic of alignment.

use vstd::prelude::*;

verus! {

/// Bytes in one physical page.
pub const PAGE_SIZE: usize = 4096;

/// Number of block orders that the buddy allocator keeps.
pub const MAX_ORDER: usize = 11;

/// An address in physical memory.
#[derive(Clone, Copy, Debug, PartialEq, Eq, Structural)]
pub struct PhysAddr {
    pub addr: usize,
}

impl PhysAddr {
    /// The address as a mathematical integer.
    pub open spec fn view(&self) -> int {
        self.addr as int
    }

    pub fn new(addr: usize) -> (r: PhysAddr)
        ensures
            r@ == addr,
    {
        PhysAddr { addr }
    }

    /// The address that stands for "no memory".
    pub fn null() -> (r: PhysAddr)
        ensures
            r@ == 0,
    {
        PhysAddr { addr: 0 }
    }

    pub fn as_usize(&self) -> (r: usize)
        ensures
            r == self@,
    {
        self.addr
    }

    pub fn is_null(&self) -> (r: bool)
        ensures
            r == (self@ == 0),
    {
        self.addr == 0
    }
}

/// The least multiple of `align` that is not below `x`.
pub open spec fn align_up(x: int, align: int) -> int
    recommends
        align > 0,
{
    if x % align == 0 {
        x
    } else {
        x + (align - x % align)
    }
}

/// `align_up` yields a multiple of `align`, at most `align - 1` above `x`.
pub proof fn lemma_align_up(x: int, align: int)
    requires
        x >= 0,
        align > 0,
    ensures
        align_up(x, align) % align == 0,
        x <= align_up(x, align) < x + align,
{
    let r = x % align;
    let a = align_up(x, align);
    assert(a % align == 0 && x <= a < x + align) by (nonlinear_arith)
        requires
            x >= 0,
            align > 0,
            r == x % align,
            a == if r == 0 { x } else { x + (align - r) },
    ;
}

/// No multiple of `align` lies between `x` and `align_up(x, align)`.
pub proof fn lemma_align_up_least(x: int, align: int, y: int)
    requires
        x >= 0,
        align > 0,
        y >= x,
        y % align == 0,
    ensures
        y >= align_up(x, align),
{
    lemma_align_up(x, align);
    let a = align_up(x, align);
    if y < a {
        assert(false) by (nonlinear_arith)
            requires
                x <= y < a,
                a < x + align,
                a % align == 0,
                y % align == 0,
                align > 0,
        ;
    }
}

/// Rounds `x` up to a multiple of `align`; `None` where `align` is zero or the
/// rounded value does not fit the machine word.
pub fn checked_align_up(x: usize, align: usize) -> (r: Option<usize>)
    ensures
        r.is_some() <==> align > 0 && align_up(x as int, align as int) <= usize::MAX,
        r.is_some() ==> r.unwrap() == align_up(x as int, align as int),
{
    if align == 0 {
        return None;
    }
    let rem: usize = x % align;
    if rem == 0 {
        Some(x)
    } else {
        let pad: usize = align - rem;
        if pad > usize::MAX - x {
            None
        } else {
            Some(x + pad)
        }
    }
}

/// Sums and differences of multiples of `n` are multiples of `n`.
pub proof fn lemma_multiples_add(a: int, b: int, n: int)
    requires
        n > 0,
        a % n == 0,
        b % n == 0,
    ensures
        (a + b) % n == 0,
        (a - b) % n == 0,
{
    vstd::arithmetic::div_mod::lemma_fundamental_div_mod(a, n);
    vstd::arithmetic::div_mod::lemma_fundamental_div_mod(b, n);
    let qa = a / n;
    let qb = b / n;
    assert(a + b == (qa + qb) * n && a - b == (qa - qb) * n) by (nonlinear_arith)
        requires
            a == n * qa,
            b == n * qb,
    ;
    vstd::arithmetic::div_mod::lemma_mod_multiples_basic(qa + qb, n);
    vstd::arithmetic::div_mod::lemma_mod_multiples_basic(qa - qb, n);
}

/// A multiple of `m` is a multiple of every divisor `n` of `m`.
pub proof fn lemma_multiples_chain(a: int, m: int, n: int)
    requires
        n > 0,
        m > 0,
        a % m == 0,
        m % n == 0,
    ensures
        a % n == 0,
{
    vstd::arithmetic::div_mod::lemma_fundamental_div_mod(a, m);
    vstd::arithmetic::div_mod::lemma_fundamental_div_mod(m, n);
    let qa = a / m;
    let qm = m / n;
    assert(a == (qa * qm) * n) by (nonlinear_arith)
        requires
            a == m * qa,
            m == n * qm,
    ;
    vstd::arithmetic::div_mod::lemma_mod_multiples_basic(qa * qm, n);
}

/// Bytes in a block of the given order: the page size shifted left by it.
pub open spec fn block_size(order: usize) -> usize {
    4096usize << order
}

/// Whether `a` is a multiple of the power of two `s`, read off its low bits.
pub open spec fn is_aligned(a: usize, s: usize) -> bool {
    a & ((s - 1) as usize) == 0
}

/// The sizes of the blocks: powers of two from one page to 1024 pages, each
/// twice the one before.
pub proof fn lemma_block_size(k: usize)
    by (bit_vector)
    requires
        k < 11,
    ensures
        (4096usize << k) >= 4096,
        (4096usize << k) <= 4194304,
        (4096usize << k) & (((4096usize << k) - 1) as usize) == 0,
        k < 10 ==> (4096usize << ((k + 1) as usize)) == 2 * (4096usize << k),
        k == 0 ==> (4096usize << k) == 4096,
{
}

/// What flipping the bit `s` does to an address aligned to `s`: it moves the
/// address by `s`, up or down, and the lower of the two is aligned to `2 * s`.
pub proof fn lemma_buddy_bits(a: usize, s: usize)
    by (bit_vector)
    requires
        s > 0,
        s <= 4194304,
        s & ((s - 1) as usize) == 0,
        a & ((s - 1) as usize) == 0,
    ensures
        (a ^ s) & ((s - 1) as usize) == 0,
        (a ^ s) ^ s == a,
        a & s == 0 ==> (a ^ s) == a + s,
        a & s != 0 ==> a >= s && (a ^ s) == a - s,
        a & s == 0 ==> a & ((2 * s - 1) as usize) == 0,
        a & s != 0 ==> (a ^ s) & ((2 * s - 1) as usize) == 0,
{
}

/// An address aligned to `2 * s` is aligned to `s`, and so is the address
/// `s` above it, which has the bit `s` set.
pub proof fn lemma_split_bits(a: usize, s: usize)
    by (bit_vector)
    requires
        s > 0,
        s <= 4194304,
        s & ((s - 1) as usize) == 0,
        a & ((2 * s - 1) as usize) == 0,
        ((a + s) as usize) == a + s,
    ensures
        a & ((s - 1) as usize) == 0,
        ((a + s) as usize) & ((s - 1) as usize) == 0,
        ((a + s) as usize) ^ s == a,
        a & s == 0,
{
}

/// An address aligned to the block size of order `k` has the size bit of
/// every lower order `m` clear, so that flipping that bit adds the size.
pub proof fn lemma_lower_order_bits(a: usize, k: usize, m: usize)
    by (bit_vector)
    requires
        m < k,
        k < 11,
        a & (((4096usize << k) - 1) as usize) == 0,
    ensures
        a & (4096usize << m) == 0,
        (a ^ (4096usize << m)) == a + (4096usize << m),
        a & (((4096usize << m) - 1) as usize) == 0,
{
}

/// Two blocks of an order fit into one block of any higher order.
pub proof fn lemma_order_sizes(m: usize, k: usize)
    by (bit_vector)
    requires
        m < k,
        k < 11,
    ensures
        2 * (4096usize << m) <= (4096usize << k),
{
}

/// With a mask of twelve bits, alignment is divisibility by the page size.
pub proof fn lemma_page_aligned(a: usize)
    by (bit_vector)
    ensures
        (a & 4095 == 0) <==> (a % 4096 == 0),
{
}

} // verus!
