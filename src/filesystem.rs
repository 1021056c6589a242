use vstd::prelude::*;

verus! {

/// Number of blocks that a file of `size` bytes is accounted for on a
/// filesystem with blocks of `block_size` bytes: one more than the number of
/// whole blocks it fills.
pub open spec fn blocks_for(block_size: int, size: int) -> int {
    1 + size / block_size
}

/// Bytes that a file of `size` bytes is accounted for on disk.
pub open spec fn effective_bytes(block_size: int, size: int) -> int {
    block_size * blocks_for(block_size, size)
}

/// `x` clamped to the range of `u64`.
pub open spec fn saturate(x: int) -> int {
    if x > u64::MAX {
        u64::MAX as int
    } else {
        x
    }
}

/// Space accounting of one root's filesystem.
#[derive(Debug, Clone, Copy, PartialEq, Eq, Hash)]
pub struct FileSystem {
    pub id: u64,
    pub block_size: u64,
    pub blocks_available: u64,
    pub scratch: bool,
}

impl FileSystem {
    /// A descriptor is usable once its block size is positive.
    pub open spec fn wf(&self) -> bool {
        self.block_size > 0
    }

    /// Whether a file of `size` bytes can be placed here without the count of
    /// free blocks going below zero.
    pub open spec fn can_hold(&self, size: u64) -> bool {
        self.blocks_available >= blocks_for(self.block_size as int, size as int)
    }

    pub fn new(id: u64, block_size: u64, blocks_available: u64, scratch: bool) -> (r: Self)
        requires
            block_size > 0,
        ensures
            r.wf(),
            r == (FileSystem { id, block_size, blocks_available, scratch }),
    {
        FileSystem { id, block_size, blocks_available, scratch }
    }

    pub fn blocks(&self, size: u64) -> (r: u64)
        requires
            self.wf(),
            blocks_for(self.block_size as int, size as int) <= u64::MAX,
        ensures
            r == blocks_for(self.block_size as int, size as int),
    {
        1 + size / self.block_size
    }

    /// Whether a file of `size` bytes can be placed here; computed without
    /// forming the block count, which may not fit a `u64`.
    pub fn fits(&self, size: u64) -> (r: bool)
        requires
            self.wf(),
        ensures
            r == self.can_hold(size),
            r ==> saturate(self.block_size * self.blocks_available) >= size,
    {
        let r = size / self.block_size < self.blocks_available;
        proof {
            if r {
                lemma_can_hold_free_bytes(*self, size);
            }
        }
        r
    }

    pub fn effective_size(&self, size: u64) -> (r: u64)
        requires
            self.wf(),
            blocks_for(self.block_size as int, size as int) <= u64::MAX,
        ensures
            r == saturate(effective_bytes(self.block_size as int, size as int)),
    {
        let b = self.blocks(size);
        mul_saturating(self.block_size, b)
    }

    pub fn free_bytes(&self) -> (r: u64)
        ensures
            r == saturate(self.block_size * self.blocks_available),
    {
        mul_saturating(self.block_size, self.blocks_available)
    }

    pub fn scratch(&self) -> (r: bool)
        ensures
            r == self.scratch,
    {
        self.scratch
    }
}

/// Product of two `u64` values, clamped to `u64::MAX`.
pub fn mul_saturating(a: u64, b: u64) -> (r: u64)
    ensures
        r == saturate(a * b),
{
    if a == 0 {
        0
    } else if b > u64::MAX / a {
        proof {
            assert(a * b > u64::MAX) by (nonlinear_arith)
                requires
                    a > 0,
                    b > u64::MAX / a,
            ;
        }
        u64::MAX
    } else {
        proof {
            assert(a * b <= u64::MAX) by (nonlinear_arith)
                requires
                    a > 0,
                    b <= u64::MAX / a,
            ;
        }
        a * b
    }
}

/// A descriptor that can hold a file has at least that many free bytes.
pub proof fn lemma_can_hold_free_bytes(fs: FileSystem, size: u64)
    requires
        fs.wf(),
        fs.can_hold(size),
    ensures
        saturate(fs.block_size * fs.blocks_available) >= size,
{
    let bs = fs.block_size as int;
    let ba = fs.blocks_available as int;
    let s = size as int;
    assert(bs * (1 + s / bs) > s) by (nonlinear_arith)
        requires
            bs > 0,
            s >= 0,
    ;
    assert(bs * ba >= bs * (1 + s / bs)) by (nonlinear_arith)
        requires
            bs > 0,
            ba >= 1 + s / bs,
    ;
}

/// A path in its byte form, terminated by a NUL byte as C interfaces expect.
pub fn to_cpath(path: &[u8]) -> (r: Vec<u8>)
    ensures
        r@ == path@.push(0u8),
{
    let mut r: Vec<u8> = Vec::new();
    let mut i: usize = 0;
    while i < path.len()
        invariant
            i <= path@.len(),
            r@ == path@.subrange(0, i as int),
        decreases path@.len() - i,
    {
        r.push(path[i]);
        i += 1;
    }
    assert(r@ == path@);
    r.push(0u8);
    r
}

} // verus!
