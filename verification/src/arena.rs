//! A heterogeneous arena that hands out lifetime-free 4-byte indices.
//!
//! The arena owns one region of bytes. Values are placed from the end of the
//! region downwards; an index is the distance from the end of the region to
//! the start of its value, so it stays valid when the region grows: growing
//! copies the used bytes to the end of a larger region.
//!
//! Positions are counted from the start of the region, and alignment is
//! that of positions: a block aligned to `align` starts at a multiple of
//! `align`. The region is a byte vector, so the addresses of its bytes carry
//! no alignment of their own; values are read back by copying their bytes.
use core::marker::PhantomData;
use vstd::prelude::*;
use zerocopy::{FromBytes, Immutable, IntoBytes, KnownLayout, TryFromBytes};
use vstd::arithmetic::power2::is_pow2;
use vstd::layout::{align_of, size_of, valid_layout};

verus! {

/// The arena could not satisfy a request.
#[derive(Debug)]
pub struct ArenaErr;

/// Index of a value of type `T` in an arena: the distance from the end of
/// the arena's region to the start of the value.
pub struct Idx<T>(u32, PhantomData<T>);

impl<T> View for Idx<T> {
    type V = u32;

    closed spec fn view(&self) -> u32 {
        self.0
    }
}

impl<T> Clone for Idx<T> {
    fn clone(&self) -> (r: Self)
        ensures
            r@ == self@,
    {
        Idx(self.0, PhantomData)
    }
}

impl<T> Copy for Idx<T> {

}

impl<T> Idx<T> {
    /// The distance from the end of the arena's region to the value.
    pub fn offset(&self) -> (r: u32)
        ensures
            r == self@,
    {
        self.0
    }
}

/// Size and alignment of a block of memory, as `std::alloc::Layout` holds
/// them: the alignment is a power of two, and the size rounded up to it
/// fits in an `isize`.
#[derive(Debug, Clone, Copy)]
pub struct Layout {
    size: usize,
    align: usize,
}

impl Layout {
    #[verifier::type_invariant]
    closed spec fn wf(self) -> bool {
        valid_layout(self.size, self.align)
    }

    pub closed spec fn spec_size(self) -> usize {
        self.size
    }

    pub closed spec fn spec_align(self) -> usize {
        self.align
    }

    /// The size in bytes. Every layout is valid.
    pub fn size(&self) -> (r: usize)
        ensures
            r == self.spec_size(),
            valid_layout(self.spec_size(), self.spec_align()),
    {
        proof {
            use_type_invariant(self);
        }
        self.size
    }

    /// The layout of a value of type `T`.
    pub fn new<T>() -> (l: Layout)
        ensures
            l == layout_of::<T>(),
            l.spec_size() == size_of::<T>(),
            l.spec_align() == align_of::<T>(),
            l.spec_size() % l.spec_align() == 0,
    {
        vstd::layout::layout_for_type_is_valid::<T>();
        Layout { size: core::mem::size_of::<T>(), align: core::mem::align_of::<T>() }
    }

    /// The layout of `size` bytes aligned to `align`, where that is a valid
    /// layout: `align` a power of two, and `size` rounded up to it no
    /// greater than `isize::MAX`.
    pub fn from_size_align(size: usize, align: usize) -> (r: Option<Layout>)
        ensures
            r is Some <==> valid_layout(size, align),
            r matches Some(l) ==> l.spec_size() == size && l.spec_align() == align,
    {
        if !is_power_of_two(align) {
            return None;
        }
        proof {
            lemma_pow2_positive(align as int);
        }
        let max = isize::MAX as usize;
        assert(max % align <= max) by (nonlinear_arith)
            requires
                align > 0,
        ;
        if size <= max - max % align {
            Some(Layout { size, align })
        } else {
            None
        }
    }

    /// The alignment in bytes. Every layout is valid.
    pub fn align(&self) -> (r: usize)
        ensures
            r == self.spec_align(),
            valid_layout(self.spec_size(), self.spec_align()),
    {
        proof {
            use_type_invariant(self);
        }
        self.align
    }
}

/// Whether `n` is a power of two.
pub fn is_power_of_two(n: usize) -> (b: bool)
    ensures
        b == is_pow2(n as int),
{
    let mut m = n;
    proof {
        reveal(is_pow2);
    }
    while m > 1 && m % 2 == 0
        invariant
            is_pow2(n as int) == is_pow2(m as int),
        decreases m,
    {
        proof {
            reveal(is_pow2);
        }
        m = m / 2;
    }
    proof {
        reveal(is_pow2);
    }
    m == 1
}

proof fn lemma_pow2_positive(n: int)
    requires
        is_pow2(n),
    ensures
        n > 0,
{
    reveal(is_pow2);
}

/// Reserves room for `n` more bytes in `v`, through
/// `Vec::try_reserve_exact`; `false` where the allocator refused. The
/// contents are unchanged either way; whether the allocator accepts is not
/// stated.
#[verifier::external_body]
fn reserve_exact(v: &mut Vec<u8>, n: usize) -> (ok: bool)
    ensures
        final(v)@ == old(v)@,
{
    v.try_reserve_exact(n).is_ok()
}

/// The bytes of `val`, through `zerocopy::IntoBytes::as_bytes`: as many as
/// the size of `T`. Which bytes they are is not stated.
#[verifier::external_body]
fn value_bytes<T: IntoBytes + Immutable>(val: &T) -> (b: &[u8])
    ensures
        b@.len() == size_of::<T>(),
{
    val.as_bytes()
}

/// A `T` read from `bytes`, through `zerocopy::FromBytes::read_from_bytes`:
/// there is one exactly when `bytes` holds as many bytes as `T` is large.
/// Which value it is is not stated.
#[verifier::external_body]
fn read_value<T: FromBytes>(bytes: &[u8]) -> (r: Option<T>)
    ensures
        r is Some <==> bytes@.len() == size_of::<T>(),
{
    T::read_from_bytes(bytes).ok()
}

/// A `T` read from `bytes`, through
/// `zerocopy::TryFromBytes::try_read_from_bytes`: none where `bytes` does
/// not hold as many bytes as `T` is large. Whether other bytes are a valid
/// `T`, and which value they give, is not stated.
#[verifier::external_body]
fn try_read_value<T: TryFromBytes>(bytes: &[u8]) -> (r: Option<T>)
    ensures
        bytes@.len() != size_of::<T>() ==> r is None,
{
    T::try_read_from_bytes(bytes).ok()
}

/// Whether dropping a `T` runs code, through `std::mem::needs_drop`; not
/// stated.
#[verifier::external_body]
fn needs_drop<T>() -> bool {
    std::mem::needs_drop::<T>()
}

/// Where a block of `size` bytes aligned to `align` starts when it is
/// placed right below position `top`: the greatest multiple of `align` that
/// is at most `top - size`. It is below the start of the region (negative)
/// when the block does not fit below `top`.
pub open spec fn bump_target(top: int, size: int, align: int) -> int {
    (top - size) - (top - size) % align
}

/// The layout of a value of type `T`.
pub closed spec fn layout_of<T>() -> Layout {
    Layout { size: size_of::<T>() as usize, align: align_of::<T>() as usize }
}

/// A block placed below `top` is aligned, ends at or below `top`, wastes
/// less than `align` bytes of padding, and lies within the region when it
/// fits below `top`.
pub proof fn law_bump_target(top: int, size: int, align: int)
    requires
        align > 0,
    ensures
        bump_target(top, size, align) % align == 0,
        bump_target(top, size, align) + size <= top,
        top - size - align < bump_target(top, size, align),
        top >= size ==> bump_target(top, size, align) >= 0,
{
    let x = top - size;
    vstd::arithmetic::div_mod::lemma_fundamental_div_mod(x, align);
    vstd::arithmetic::div_mod::lemma_mod_bound(x, align);
    vstd::arithmetic::div_mod::lemma_mod_multiples_basic(x / align, align);
    assert(bump_target(top, size, align) == (x / align) * align) by (nonlinear_arith)
        requires
            x == align * (x / align) + x % align,
            bump_target(top, size, align) == x - x % align,
    ;
}

/// `ptr` moved down by `layout.size()` bytes, then down to a multiple of
/// `layout.align()`; `None` where `ptr` is smaller than the size.
pub fn bump_down_layout(ptr: usize, layout: Layout) -> (r: Option<usize>)
    ensures
        match r {
            Some(p) => ptr >= layout.spec_size() && p == bump_target(
                ptr as int,
                layout.spec_size() as int,
                layout.spec_align() as int,
            ),
            None => ptr < layout.spec_size(),
        },
        valid_layout(layout.spec_size(), layout.spec_align()),
{
    let size = layout.size();
    let align = layout.align();
    proof {
        lemma_pow2_positive(align as int);
    }
    if ptr < size {
        return None;
    }
    let raw = ptr - size;
    assert(raw % align <= raw) by (nonlinear_arith)
        requires
            align > 0,
    ;
    Some(raw - raw % align)
}

/// `n` zero bytes.
pub open spec fn zeros(n: nat) -> Seq<u8> {
    Seq::new(n, |i: int| 0u8)
}

/// The alignment bounds an arena is built with: both powers of two, the
/// smaller one first, and a first region of `4 * min_align` bytes aligned
/// to `max_align` is a valid layout.
pub open spec fn params_valid(min_align: usize, max_align: usize) -> bool {
    &&& is_pow2(min_align as int)
    &&& is_pow2(max_align as int)
    &&& min_align <= max_align
    &&& 4 * min_align <= usize::MAX
    &&& valid_layout((4 * min_align) as usize, max_align)
}

/// Capacity needed, counted from the end of a region of `cap` bytes whose
/// last `used` bytes are in use, to place a block of `size` bytes aligned
/// to `align` below them.
pub open spec fn needed_capacity(cap: int, used: int, size: int, align: int) -> int {
    cap - bump_target(cap - used, size, align)
}

/// The capacity a region of `c` bytes grows to so as to hold `needed`
/// bytes: `c` doubled until it is large enough, or `None` once doubling
/// leaves `usize`.
pub open spec fn grown_capacity(c: nat, needed: int) -> Option<nat>
    decreases usize::MAX - c,
{
    if needed <= c {
        Some(c)
    } else if c == 0 || c * 2 > usize::MAX {
        None
    } else {
        grown_capacity(c * 2, needed)
    }
}

/// The bytes of the block of `len` bytes that starts `back` bytes before the
/// end of the used bytes `tail`.
pub open spec fn read_block(tail: Seq<u8>, back: int, len: int) -> Seq<u8> {
    tail.subrange(tail.len() - back, tail.len() - back + len)
}

/// Whether the block of `len` bytes that starts `back` bytes before the end
/// lies within the used bytes `tail`.
pub open spec fn block_in(tail: Seq<u8>, back: int, len: int) -> bool {
    0 <= len <= back <= tail.len()
}

/// Bytes added in front of the bytes in use leave every block in use where
/// it was: the same index reads the same bytes.
pub proof fn law_reads_survive_growth(added: Seq<u8>, tail: Seq<u8>, back: int, len: int)
    requires
        block_in(tail, back, len),
    ensures
        block_in(added + tail, back, len),
        read_block(added + tail, back, len) == read_block(tail, back, len),
{
    assert(read_block(added + tail, back, len) =~= read_block(tail, back, len));
}

/// A grown capacity is large enough, stays a power of two, and stays a
/// multiple of whatever the capacity it grew from was a multiple of.
pub proof fn law_grown_capacity(c: nat, needed: int, m: int)
    requires
        is_pow2(c as int),
        m > 0,
        c as int % m == 0,
    ensures
        grown_capacity(c, needed) matches Some(g) ==> needed <= g && c <= g && is_pow2(g as int)
            && g as int % m == 0,
    decreases usize::MAX - c,
{
    if needed <= c {
    } else if c == 0 || c * 2 > usize::MAX {
    } else {
        lemma_pow2_times_two(c as int);
        assert((c * 2) as int % m == 0) by (nonlinear_arith)
            requires
                c as int % m == 0,
                m > 0,
        {
            vstd::arithmetic::div_mod::lemma_fundamental_div_mod(c as int, m);
            vstd::arithmetic::div_mod::lemma_mod_multiples_basic(2 * (c as int / m), m);
        }
        law_grown_capacity(c * 2, needed, m);
    }
}

proof fn lemma_pow2_times_two(n: int)
    requires
        is_pow2(n),
    ensures
        is_pow2(2 * n),
{
    reveal(is_pow2);
    assert((2 * n) % 2 == 0);
    assert((2 * n) / 2 == n);
}

/// A heterogenous arena that hands lifetime-free 4-bytes indices whose
/// backing memory can be (de)serialized.
pub struct Arena<const MIN_ALIGN: usize, const MAX_ALIGN: usize> {
    /// The region, from its start to its end.
    mem: Vec<u8>,
    /// How many bytes at the end of the region are in use.
    used: usize,
}

impl<const MIN_ALIGN: usize, const MAX_ALIGN: usize> Arena<MIN_ALIGN, MAX_ALIGN> {
    /// The region's size is a power of two that a layout can describe, the
    /// used bytes lie within it, and the bytes below them are zero.
    pub closed spec fn wf(&self) -> bool {
        &&& params_valid(MIN_ALIGN, MAX_ALIGN)
        &&& is_pow2(self.mem@.len() as int)
        &&& self.mem@.len() as int % MIN_ALIGN as int == 0
        &&& self.mem@.len() <= isize::MAX
        &&& self.used <= self.mem@.len()
        &&& forall|k: int| 0 <= k < self.mem@.len() - self.used ==> #[trigger] self.mem@[k] == 0
    }

    /// Size of the region.
    pub closed spec fn capacity(&self) -> nat {
        self.mem@.len()
    }

    /// The whole region, from its start to its end.
    pub closed spec fn region(&self) -> Seq<u8> {
        self.mem@
    }

    /// The bytes in use, from the most recent block to the end of the region.
    pub closed spec fn tail(&self) -> Seq<u8> {
        self.mem@.skip(self.mem@.len() - self.used)
    }

    /// The bytes in use lie within the region, and the region is not empty
    /// and fits in an `isize`.
    pub proof fn lemma_wf(&self)
        requires
            self.wf(),
        ensures
            self.tail().len() <= self.capacity() <= isize::MAX,
            self.capacity() > 0,
            self.capacity() as int % MIN_ALIGN as int == 0,
            MIN_ALIGN > 0,
            self.region() == zeros((self.capacity() - self.tail().len()) as nat) + self.tail(),
    {
        lemma_pow2_positive(self.mem@.len() as int);
        lemma_pow2_positive(MIN_ALIGN as int);
        assert(self.region() =~= zeros((self.capacity() - self.tail().len()) as nat)
            + self.tail());
    }

    /// Whether `layout` is placed without growing the region.
    pub open spec fn fits(&self, layout: Layout) -> bool {
        self.capacity() - self.tail().len() >= layout.spec_size()
    }

    /// The capacity the region grows to so as to place `layout`.
    pub open spec fn growth_for(&self, layout: Layout) -> Option<nat> {
        grown_capacity(
            self.capacity(),
            needed_capacity(
                self.capacity() as int,
                self.tail().len() as int,
                layout.spec_size() as int,
                layout.spec_align() as int,
            ),
        )
    }

    /// Whether `layout` can be asked for: its alignment lies within the
    /// arena's bounds, and a growth it needs stays within what a layout
    /// can describe.
    pub open spec fn can_request(&self, layout: Layout) -> bool {
        &&& MIN_ALIGN <= layout.spec_align() <= MAX_ALIGN
        &&& !self.fits(layout) ==> !(self.growth_for(layout) matches Some(c) && c > isize::MAX)
    }

    /// What placing `layout` in `old` made of `new`, the block starting at
    /// position `pos`: the region kept its size where the block fit, else
    /// grew as `growth_for` says; the block sits right below the bytes in
    /// use, aligned; the bytes in use gained the block and its padding,
    /// zero, in front.
    pub open spec fn placed(old: &Self, new: &Self, layout: Layout, pos: int) -> bool {
        let c = new.capacity();
        &&& if old.fits(layout) {
            c == old.capacity()
        } else {
            old.growth_for(layout) == Some(c)
        }
        &&& pos == bump_target(
            c - old.tail().len(),
            layout.spec_size() as int,
            layout.spec_align() as int,
        )
        &&& new.tail() == zeros((c - pos - old.tail().len()) as nat) + old.tail()
    }

    /// `v`, empty, filled up with `n` zero bytes.
    fn fill_zeroed(v: Vec<u8>, n: usize) -> (r: Vec<u8>)
        requires
            v@.len() == 0,
        ensures
            r@ == zeros(n as nat),
    {
        let mut v = v;
        assert(v@ =~= zeros(0));
        while v.len() < n
            invariant
                v@.len() <= n,
                v@ == zeros(v@.len()),
            decreases n - v@.len(),
        {
            v.push(0);
            assert(v@ =~= zeros(v@.len()));
        }
        v
    }

    fn zeroed(n: usize) -> (v: Vec<u8>)
        ensures
            v@ == zeros(n as nat),
    {
        Self::fill_zeroed(Vec::new(), n)
    }

    /// `n` zero bytes, where the allocator provides room for them.
    fn try_zeroed(n: usize) -> (r: Option<Vec<u8>>)
        ensures
            r matches Some(v) ==> v@ == zeros(n as nat),
    {
        let mut v: Vec<u8> = Vec::new();
        if !reserve_exact(&mut v, n) {
            return None;
        }
        Some(Self::fill_zeroed(v, n))
    }

    /// The empty arena whose region is `mem`, `4 * MIN_ALIGN` zero bytes.
    fn from_region(mem: Vec<u8>) -> (a: Self)
        requires
            params_valid(MIN_ALIGN, MAX_ALIGN),
            mem@ == zeros(4 * MIN_ALIGN as nat),
        ensures
            a.wf(),
            a.capacity() == 4 * MIN_ALIGN,
            a.tail() == Seq::<u8>::empty(),
    {
        proof {
            Self::lemma_first_region();
        }
        let a = Arena { mem, used: 0 };
        assert(a.tail() =~= Seq::<u8>::empty());
        a
    }

    proof fn lemma_first_region()
        requires
            params_valid(MIN_ALIGN, MAX_ALIGN),
        ensures
            is_pow2(4 * MIN_ALIGN as int),
            4 * MIN_ALIGN <= isize::MAX,
            (4 * MIN_ALIGN as int) % MIN_ALIGN as int == 0,
    {
        lemma_pow2_times_two(MIN_ALIGN as int);
        lemma_pow2_times_two(2 * MIN_ALIGN as int);
        lemma_pow2_positive(MIN_ALIGN as int);
        vstd::arithmetic::div_mod::lemma_mod_multiples_basic(4, MIN_ALIGN as int);
    }

    /// An empty arena whose first region holds `4 * MIN_ALIGN` bytes;
    /// `None` where the allocator cannot provide them.
    pub fn try_new_in() -> (r: Option<Self>)
        requires
            params_valid(MIN_ALIGN, MAX_ALIGN),
        ensures
            r matches Some(a) ==> a.wf() && a.capacity() == 4 * MIN_ALIGN && a.tail()
                == Seq::<u8>::empty(),
    {
        proof {
            Self::lemma_first_region();
        }
        let cap = MIN_ALIGN * 4;
        match Self::try_zeroed(cap) {
            Some(mem) => Some(Self::from_region(mem)),
            None => None,
        }
    }

    /// An empty arena whose first region holds `4 * MIN_ALIGN` bytes.
    pub fn new_in() -> (a: Self)
        requires
            params_valid(MIN_ALIGN, MAX_ALIGN),
        ensures
            a.wf(),
            a.capacity() == 4 * MIN_ALIGN,
            a.tail() == Seq::<u8>::empty(),
    {
        proof {
            Self::lemma_first_region();
        }
        Self::from_region(Self::zeroed(MIN_ALIGN * 4))
    }

    fn try_alloc_layout_fast(&mut self, layout: Layout) -> (r: Option<usize>)
        requires
            old(self).wf(),
        ensures
            final(self).wf(),
            r is Some <==> old(self).fits(layout),
            r matches Some(pos) ==> Self::placed(&*old(self), &*final(self), layout, pos as int),
            r is None ==> *final(self) == *old(self),
    {
        proof {
            self.lemma_wf();
        }
        let cap = self.mem.len();
        let top = cap - self.used;
        match bump_down_layout(top, layout) {
            None => None,
            Some(pos) => {
                let ghost old_self = *self;
                proof {
                    let size = layout.spec_size() as int;
                    let align = layout.spec_align() as int;
                    lemma_pow2_positive(align);
                    assert((top - size) % align <= top - size) by (nonlinear_arith)
                        requires
                            align > 0,
                            top - size >= 0,
                    ;
                }
                self.used = cap - pos;
                proof {
                    assert(self.tail() =~= zeros((cap - pos - old_self.used) as nat)
                        + old_self.tail());
                }
                Some(pos)
            },
        }
    }
    /// The capacity the region grows to so as to place `layout`, computed as
    /// `growth_for` says; `None` where doubling leaves `usize`.
    fn grown_capacity_for(&self, layout: Layout) -> (r: Option<usize>)
        requires
            self.wf(),
            !self.fits(layout),
        ensures
            match r {
                Some(c) => self.growth_for(layout) == Some(c as nat),
                None => self.growth_for(layout) is None,
            },
    {
        proof {
            self.lemma_wf();
        }
        let size = layout.size();
        let align = layout.align();
        proof {
            lemma_pow2_positive(align as int);
        }
        let cap = self.mem.len();
        let used = self.used;
        let d = used + size - cap;
        let rem = d % align;
        let extra = if rem == 0 {
            0
        } else {
            align - rem
        };
        let needed: u128 = used as u128 + size as u128 + extra as u128;
        proof {
            let q = d as int / align as int;
            vstd::arithmetic::div_mod::lemma_fundamental_div_mod(d as int, align as int);
            if rem == 0 {
                assert(-d == (-q) * align + 0) by (nonlinear_arith)
                    requires
                        d == align * q + rem,
                        rem == 0,
                ;
                vstd::arithmetic::div_mod::lemma_fundamental_div_mod_converse(
                    -d,
                    align as int,
                    -q,
                    0,
                );
            } else {
                assert(-d == (-q - 1) * align + (align - rem)) by (nonlinear_arith)
                    requires
                        d == align * q + rem,
                ;
                vstd::arithmetic::div_mod::lemma_fundamental_div_mod_converse(
                    -d,
                    align as int,
                    -q - 1,
                    align - rem,
                );
            }
            assert(needed == needed_capacity(cap as int, used as int, size as int, align as int));
        }
        let mut next_cap = cap;
        while (next_cap as u128) < needed
            invariant
                is_pow2(next_cap as int),
                cap <= next_cap,
                grown_capacity(cap as nat, needed as int) == grown_capacity(
                    next_cap as nat,
                    needed as int,
                ),
                self.wf(),
                cap == self.mem@.len(),
                used == self.used,
                needed == needed_capacity(cap as int, used as int, size as int, align as int),
                size == layout.spec_size(),
                align == layout.spec_align(),
            decreases usize::MAX - next_cap,
        {
            proof {
                lemma_pow2_positive(next_cap as int);
            }
            match next_cap.checked_mul(2) {
                Some(v) => {
                    proof {
                        lemma_pow2_times_two(next_cap as int);
                    }
                    next_cap = v;
                },
                None => {
                    return None;
                },
            }
        }
        Some(next_cap)
    }

    /// Moves the bytes in use to the end of `mem`, a zeroed region of the
    /// grown capacity, makes it the arena's region, and places `layout`
    /// right below them.
    fn grow_into(&mut self, mem: Vec<u8>, layout: Layout) -> (pos: usize)
        requires
            old(self).wf(),
            old(self).can_request(layout),
            !old(self).fits(layout),
            old(self).growth_for(layout) == Some(mem@.len()),
            mem@ == zeros(mem@.len()),
        ensures
            final(self).wf(),
            Self::placed(&*old(self), &*final(self), layout, pos as int),
    {
        proof {
            self.lemma_wf();
            law_grown_capacity(self.capacity(), needed_capacity(
                self.capacity() as int,
                self.tail().len() as int,
                layout.spec_size() as int,
                layout.spec_align() as int,
            ), MIN_ALIGN as int);
        }
        let mut mem = mem;
        let cap = self.mem.len();
        let used = self.used;
        let next_cap = mem.len();
        let size = layout.size();
        let dst = next_cap - used;
        let src = cap - used;
        let mut k: usize = 0;
        while k < used
            invariant
                mem@.len() == next_cap,
                k <= used,
                dst + used == next_cap,
                src + used == cap,
                self.mem@.len() == cap,
                forall|j: int|
                    0 <= j < next_cap ==> #[trigger] mem@[j] == (if dst <= j < dst + k {
                        self.mem@[src + j - dst]
                    } else {
                        0u8
                    }),
            decreases used - k,
        {
            let b = self.mem[src + k];
            mem.set(dst + k, b);
            k = k + 1;
        }
        let ghost old_self = *self;
        self.mem = mem;
        proof {
            assert(self.tail() =~= old_self.tail());
            assert(self.fits(layout));
        }
        match self.try_alloc_layout_fast(layout) {
            Some(pos) => pos,
            None => {
                proof {
                    assert(false);
                }
                0
            },
        }
    }

    fn try_alloc_layout_realloc(&mut self, layout: Layout) -> (r: Result<usize, ArenaErr>)
        requires
            old(self).wf(),
            !old(self).fits(layout),
            old(self).can_request(layout),
        ensures
            final(self).wf(),
            match r {
                Ok(pos) => Self::placed(&*old(self), &*final(self), layout, pos as int),
                Err(_) => *final(self) == *old(self),
            },
            old(self).growth_for(layout) is None ==> r is Err,
    {
        let next_cap = match self.grown_capacity_for(layout) {
            Some(c) => c,
            None => {
                return Err(ArenaErr);
            },
        };
        let mem = match Self::try_zeroed(next_cap) {
            Some(m) => m,
            None => {
                return Err(ArenaErr);
            },
        };
        Ok(self.grow_into(mem, layout))
    }

    /// Places a block of memory described by `layout` below the bytes in use,
    /// growing the region when it does not fit, and returns its position
    /// from the start of the region. The block's bytes are zero.
    pub fn try_alloc_layout(&mut self, layout: Layout) -> (r: Result<usize, ArenaErr>)
        requires
            old(self).wf(),
            old(self).can_request(layout),
        ensures
            final(self).wf(),
            match r {
                Ok(pos) => Self::placed(&*old(self), &*final(self), layout, pos as int),
                Err(_) => *final(self) == *old(self),
            },
            old(self).fits(layout) ==> r is Ok,
            !old(self).fits(layout) && old(self).growth_for(layout) is None ==> r is Err,
    {
        match self.try_alloc_layout_fast(layout) {
            Some(pos) => Ok(pos),
            None => self.try_alloc_layout_realloc(layout),
        }
    }
    /// What storing `bytes` with `layout` in `old` made of `new`: as
    /// `placed` says, with the block holding `bytes`.
    pub open spec fn written(old: &Self, new: &Self, layout: Layout, bytes: Seq<u8>) -> bool {
        let c = new.capacity();
        let pos = bump_target(
            c - old.tail().len(),
            layout.spec_size() as int,
            layout.spec_align() as int,
        );
        &&& if old.fits(layout) {
            c == old.capacity()
        } else {
            old.growth_for(layout) == Some(c)
        }
        &&& bytes.len() == layout.spec_size()
        &&& new.tail() == bytes + zeros((c - pos - old.tail().len() - bytes.len()) as nat)
            + old.tail()
    }

    /// The index that storing `bytes` hands out reads `bytes` back.
    pub proof fn law_read_after_write(old: &Self, new: &Self, layout: Layout, bytes: Seq<u8>)
        requires
            Self::written(old, new, layout, bytes),
        ensures
            block_in(new.tail(), new.tail().len() as int, bytes.len() as int),
            read_block(new.tail(), new.tail().len() as int, bytes.len() as int) == bytes,
    {
        let c = new.capacity();
        let pos = bump_target(
            c - old.tail().len(),
            layout.spec_size() as int,
            layout.spec_align() as int,
        );
        let rest = zeros((c - pos - old.tail().len() - bytes.len()) as nat) + old.tail();
        assert(new.tail() =~= bytes + rest);
        assert(read_block(new.tail(), new.tail().len() as int, bytes.len() as int) =~= bytes);
    }

    /// Storing a value puts, in front of the bytes in use, its bytes and
    /// then fewer than `align` zero bytes of padding: the bytes in use are
    /// always the stored values, newest first, each followed by its zero
    /// padding.
    pub proof fn law_write_prepends(old: &Self, new: &Self, layout: Layout, bytes: Seq<u8>)
        requires
            Self::written(old, new, layout, bytes),
            valid_layout(layout.spec_size(), layout.spec_align()),
        ensures
            0 <= new.tail().len() - old.tail().len() - bytes.len() < layout.spec_align(),
            new.tail() == bytes + zeros((new.tail().len() - old.tail().len() - bytes.len()) as nat)
                + old.tail(),
    {
        let c = new.capacity();
        let align = layout.spec_align() as int;
        lemma_pow2_positive(align);
        law_bump_target(c - old.tail().len(), layout.spec_size() as int, align);
    }

    /// With equal alignment bounds, a store whose size is a multiple of the
    /// alignment (as the size of every type is of its alignment) puts no
    /// padding in front of the bytes in use: they are exactly the stored
    /// values, newest first.
    pub proof fn law_equal_bounds_no_padding(
        old: &Self,
        new: &Self,
        layout: Layout,
        bytes: Seq<u8>,
    )
        requires
            MIN_ALIGN == MAX_ALIGN,
            new.wf(),
            old.can_request(layout),
            Self::written(old, new, layout, bytes),
            valid_layout(layout.spec_size(), layout.spec_align()),
            old.tail().len() as int % MIN_ALIGN as int == 0,
            layout.spec_size() as int % MIN_ALIGN as int == 0,
        ensures
            new.tail() == bytes + old.tail(),
            new.tail().len() as int % MIN_ALIGN as int == 0,
    {
        let a = MIN_ALIGN as int;
        new.lemma_wf();
        Self::law_write_prepends(old, new, layout, bytes);
        let c = new.capacity() as int;
        let u = old.tail().len() as int;
        let z = layout.spec_size() as int;
        vstd::arithmetic::div_mod::lemma_fundamental_div_mod(c, a);
        vstd::arithmetic::div_mod::lemma_fundamental_div_mod(u, a);
        vstd::arithmetic::div_mod::lemma_fundamental_div_mod(z, a);
        let k = c / a - u / a - z / a;
        assert(c - u - z == k * a) by (nonlinear_arith)
            requires
                c == a * (c / a) + c % a,
                u == a * (u / a) + u % a,
                z == a * (z / a) + z % a,
                c % a == 0,
                u % a == 0,
                z % a == 0,
                k == c / a - u / a - z / a,
        ;
        vstd::arithmetic::div_mod::lemma_mod_multiples_basic(k, a);
        assert(zeros(0) + old.tail() =~= old.tail());
        assert(bytes + zeros(0) =~= bytes);
        vstd::arithmetic::div_mod::lemma_mod_multiples_basic(c / a - k, a);
        assert(u + z == (c / a - k) * a) by (nonlinear_arith)
            requires
                c == a * (c / a),
                c - u - z == k * a,
        ;
    }

    /// Storing a value leaves every block stored before readable, at the
    /// same index, with the same bytes, also where the region grew.
    pub proof fn law_write_keeps_blocks(
        old: &Self,
        new: &Self,
        layout: Layout,
        bytes: Seq<u8>,
        back: int,
        len: int,
    )
        requires
            Self::written(old, new, layout, bytes),
            block_in(old.tail(), back, len),
        ensures
            block_in(new.tail(), back, len),
            read_block(new.tail(), back, len) == read_block(old.tail(), back, len),
    {
        let c = new.capacity();
        let pos = bump_target(
            c - old.tail().len(),
            layout.spec_size() as int,
            layout.spec_align() as int,
        );
        let added = bytes + zeros((c - pos - old.tail().len() - bytes.len()) as nat);
        assert(new.tail() =~= added + old.tail());
        law_reads_survive_growth(added, old.tail(), back, len);
    }

    /// Stores `bytes` in a new block described by `layout` and returns its
    /// index: the distance from the end of the region to the block's start.
    /// The index must fit in a `u32`; where it does not, the block is
    /// stored all the same and the call fails.
    pub fn try_alloc_bytes(&mut self, layout: Layout, bytes: &[u8]) -> (r: Result<u32, ArenaErr>)
        requires
            old(self).wf(),
            old(self).can_request(layout),
            bytes@.len() == layout.spec_size(),
        ensures
            final(self).wf(),
            match r {
                Ok(back) => Self::written(&*old(self), &*final(self), layout, bytes@) && back
                    == final(self).tail().len() && read_block(
                    final(self).tail(),
                    back as int,
                    bytes@.len() as int,
                ) == bytes@,
                Err(_) => *final(self) == *old(self) || (Self::written(
                    &*old(self),
                    &*final(self),
                    layout,
                    bytes@,
                ) && final(self).tail().len() > u32::MAX),
            },
            old(self).fits(layout) ==> (r is Ok <==> final(self).tail().len() <= u32::MAX),
            !old(self).fits(layout) && old(self).growth_for(layout) is None ==> r is Err,
    {
        let size = layout.size();
        let pos = match self.try_alloc_layout(layout) {
            Ok(p) => p,
            Err(e) => {
                return Err(e);
            },
        };
        let ghost placed_self = *self;
        proof {
            self.lemma_wf();
            lemma_pow2_positive(layout.spec_align() as int);
            law_bump_target(
                self.capacity() - old(self).tail().len(),
                size as int,
                layout.spec_align() as int,
            );
        }
        let mut k: usize = 0;
        while k < size
            invariant
                self.wf(),
                self.capacity() == placed_self.capacity(),
                self.used == placed_self.used,
                k <= size,
                size == bytes@.len(),
                pos + size <= self.mem@.len(),
                pos >= self.mem@.len() - self.used,
                forall|j: int|
                    0 <= j < self.mem@.len() ==> #[trigger] self.mem@[j] == (if pos <= j < pos
                        + k {
                        bytes@[j - pos]
                    } else {
                        placed_self.mem@[j]
                    }),
            decreases size - k,
        {
            self.mem.set(pos + k, bytes[k]);
            k = k + 1;
        }
        let back = self.mem.len() - pos;
        proof {
            let old_tail = old(self).tail();
            let pad = (self.capacity() - pos - old_tail.len() - size) as nat;
            let pt = placed_self.tail();
            assert(pt == zeros((self.capacity() - pos - old_tail.len()) as nat) + old_tail);
            assert(pos == self.mem@.len() - self.used);
            let want = bytes@ + zeros(pad) + old_tail;
            assert forall|j: int| 0 <= j < self.tail().len() implies self.tail()[j] == want[j] by {
                assert(self.tail()[j] == self.mem@[pos + j]);
                if j < size {
                    assert(want[j] == bytes@[j]);
                } else {
                    assert(placed_self.mem@[pos + j] == pt[j]);
                    if j < size + pad {
                        assert(want[j] == 0u8);
                        assert(pt[j] == 0u8);
                    } else {
                        assert(want[j] == old_tail[j - size - pad]);
                    }
                }
            }
            assert(self.tail() =~= want);
            assert(read_block(self.tail(), back as int, size as int) =~= bytes@);
        }
        if back <= u32::MAX as usize {
            Ok(back as u32)
        } else {
            Err(ArenaErr)
        }
    }

    /// The bytes of the block of `len` bytes at index `back`; an error where
    /// that block does not lie within the region. Below the bytes in use the
    /// region holds zeros.
    pub fn try_get_bytes(&self, back: u32, len: usize) -> (r: Result<&[u8], ArenaErr>)
        requires
            self.wf(),
        ensures
            match r {
                Ok(b) => block_in(self.region(), back as int, len as int) && b@ == read_block(
                    self.region(),
                    back as int,
                    len as int,
                ),
                Err(_) => !block_in(self.region(), back as int, len as int),
            },
            block_in(self.tail(), back as int, len as int) ==> (r matches Ok(b) && b@
                == read_block(self.tail(), back as int, len as int)),
    {
        proof {
            self.lemma_wf();
            if block_in(self.tail(), back as int, len as int) {
                law_reads_survive_growth(
                    zeros((self.capacity() - self.tail().len()) as nat),
                    self.tail(),
                    back as int,
                    len as int,
                );
            }
        }
        let back = back as usize;
        if back > self.mem.len() || len > back {
            return Err(ArenaErr);
        }
        let start = self.mem.len() - back;
        let (_, upper) = self.mem.as_slice().split_at(start);
        let (block, _) = upper.split_at(len);
        proof {
            assert(block@ =~= read_block(self.region(), back as int, len as int));
        }
        Ok(block)
    }

    /// Stores `val` in a new block laid out as `T` and returns its index.
    /// Fails where dropping a `T` would run code, since the arena keeps only
    /// the value's bytes; where the region cannot grow; and where the index
    /// does not fit in a `u32` (the value is stored all the same).
    pub fn try_alloc<T: KnownLayout + Immutable + IntoBytes>(&mut self, val: T) -> (r: Result<
        Idx<T>,
        ArenaErr,
    >)
        requires
            old(self).wf(),
            old(self).can_request(layout_of::<T>()),
        ensures
            final(self).wf(),
            match r {
                Ok(idx) => Self::written(
                    &*old(self),
                    &*final(self),
                    layout_of::<T>(),
                    final(self).tail().take(size_of::<T>() as int),
                ) && idx@ == final(self).tail().len(),
                Err(_) => *final(self) == *old(self) || (Self::written(
                    &*old(self),
                    &*final(self),
                    layout_of::<T>(),
                    final(self).tail().take(size_of::<T>() as int),
                ) && final(self).tail().len() > u32::MAX),
            },
            !old(self).fits(layout_of::<T>()) && old(self).growth_for(layout_of::<T>()) is None
                ==> r is Err,
    {
        if needs_drop::<T>() {
            return Err(ArenaErr);
        }
        let layout = Layout::new::<T>();
        let bytes = value_bytes(&val);
        match self.try_alloc_bytes(layout, bytes) {
            Ok(back) => {
                proof {
                    assert(final(self).tail().take(size_of::<T>() as int) =~= bytes@) by {
                        assert(self.tail().take(size_of::<T>() as int) =~= bytes@);
                    }
                }
                Ok(Idx(back, PhantomData))
            },
            Err(e) => {
                proof {
                    if *self != *old(self) {
                        assert(self.tail().take(size_of::<T>() as int) =~= bytes@);
                    }
                }
                Err(e)
            },
        }
    }

    /// Reads the value of type `T` at `idx`; an error where its block does
    /// not lie within the region.
    pub fn try_get<T: KnownLayout + Immutable + FromBytes>(&self, idx: Idx<T>) -> (r: Result<
        T,
        ArenaErr,
    >)
        requires
            self.wf(),
        ensures
            r is Ok <==> block_in(self.region(), idx@ as int, size_of::<T>() as int),
    {
        let bytes = self.try_get_bytes(idx.0, core::mem::size_of::<T>())?;
        match read_value::<T>(bytes) {
            Some(v) => Ok(v),
            None => Err(ArenaErr),
        }
    }

    /// Reads the value of type `T` at `idx`, whose block lies within the
    /// region.
    pub fn get<T: KnownLayout + Immutable + FromBytes>(&self, idx: Idx<T>) -> (r: T)
        requires
            self.wf(),
            block_in(self.region(), idx@ as int, size_of::<T>() as int),
    {
        let bytes = self.try_get_bytes(idx.0, core::mem::size_of::<T>()).unwrap();
        read_value::<T>(bytes).unwrap()
    }

    /// Reads the value of type `T` at `idx`, checking that its bytes form a
    /// valid `T`; an error where its block does not lie within the region
    /// or its bytes are no valid `T`.
    pub fn try_get_partial<T: KnownLayout + Immutable + TryFromBytes>(&self, idx: Idx<T>) -> (r:
        Result<T, ArenaErr>)
        requires
            self.wf(),
        ensures
            r is Ok ==> block_in(self.region(), idx@ as int, size_of::<T>() as int),
    {
        let bytes = self.try_get_bytes(idx.0, core::mem::size_of::<T>())?;
        match try_read_value::<T>(bytes) {
            Some(v) => Ok(v),
            None => Err(ArenaErr),
        }
    }

    /// Position, from the start of the region, of the value at `idx`; an
    /// error where `idx` reaches before the start of the region.
    pub fn try_get_ptr<T>(&self, idx: Idx<T>) -> (r: Result<usize, ArenaErr>)
        requires
            self.wf(),
        ensures
            match r {
                Ok(p) => idx@ <= self.capacity() && p == self.capacity() - idx@,
                Err(_) => idx@ > self.capacity(),
            },
            idx@ <= self.tail().len() ==> (r matches Ok(p) && p == (self.capacity()
                - self.tail().len()) + (self.tail().len() - idx@)),
    {
        proof {
            self.lemma_wf();
        }
        let offset = idx.0 as usize;
        if offset > self.mem.len() {
            return Err(ArenaErr);
        }
        Ok(self.mem.len() - offset)
    }

    /// The bytes in use, from the most recent block to the end of the region.
    pub fn as_slice(&self) -> (r: &[u8])
        requires
            self.wf(),
        ensures
            r@ == self.tail(),
            r@.len() <= self.capacity(),
    {
        proof {
            self.lemma_wf();
        }
        let (_, tail) = self.mem.as_slice().split_at(self.mem.len() - self.used);
        tail
    }
} // impl

} // verus!
