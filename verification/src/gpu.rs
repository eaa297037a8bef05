//! Kernel launch shapes.

use vstd::prelude::*;

verus! {

/// Kernel launch dimensions.
#[derive(Debug, Clone, Copy)]
pub struct GpuTaskConfig {
    pub grid_dim: (u32, u32, u32),
    pub block_dim: (u32, u32, u32),
    pub shared_mem_bytes: u32,
}

impl Default for GpuTaskConfig {
    fn default() -> (c: Self)
        ensures
            c.grid_dim == (1u32, 1u32, 1u32),
            c.block_dim == (256u32, 1u32, 1u32),
            c.shared_mem_bytes == 0,
    {
        GpuTaskConfig { grid_dim: (1, 1, 1), block_dim: (256, 1, 1), shared_mem_bytes: 0 }
    }
}

impl GpuTaskConfig {
    /// A one-dimensional launch over `num_elements` elements (counted
    /// modulo 2^32) with `threads_per_block` threads per block: enough
    /// blocks to cover them.
    pub fn linear(num_elements: usize, threads_per_block: u32) -> (c: Self)
        requires
            threads_per_block > 0,
            (num_elements as int % 0x1_0000_0000) + threads_per_block <= u32::MAX,
        ensures
            c.grid_dim == (((num_elements as int % 0x1_0000_0000 + threads_per_block - 1) / (threads_per_block as int)) as u32, 1u32, 1u32),
            c.block_dim == (threads_per_block, 1u32, 1u32),
            c.shared_mem_bytes == 0,
    {
        let n = ((num_elements as u64) % 0x1_0000_0000) as u32;
        assert(n == num_elements as int % 0x1_0000_0000);
        let blocks = (n + threads_per_block - 1) / threads_per_block;
        GpuTaskConfig { grid_dim: (blocks, 1, 1), block_dim: (threads_per_block, 1, 1), shared_mem_bytes: 0 }
    }

    /// A two-dimensional launch over `width` × `height` with blocks of
    /// `block_size`: enough blocks in each direction to cover them.
    pub fn grid_2d(width: u32, height: u32, block_size: (u32, u32)) -> (c: Self)
        requires
            block_size.0 > 0,
            block_size.1 > 0,
            width + block_size.0 <= u32::MAX,
            height + block_size.1 <= u32::MAX,
        ensures
            c.grid_dim == (((width + block_size.0 - 1) / (block_size.0 as int)) as u32,
                ((height + block_size.1 - 1) / (block_size.1 as int)) as u32, 1u32),
            c.block_dim == (block_size.0, block_size.1, 1u32),
            c.shared_mem_bytes == 0,
    {
        let bx = (width + block_size.0 - 1) / block_size.0;
        let by = (height + block_size.1 - 1) / block_size.1;
        GpuTaskConfig { grid_dim: (bx, by, 1), block_dim: (block_size.0, block_size.1, 1), shared_mem_bytes: 0 }
    }
}

} // verus!
