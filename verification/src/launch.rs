//! How many threads a batch takes on a device, and in what groups.
use crate::chain::chain_count;
use crate::error::Error;
use vstd::prelude::*;
use vstd::arithmetic::div_mod::lemma_fundamental_div_mod;

verus! {

use crate::chain::{chain_len, chains_for};

/// The bits of a window in the tables of the precompiled kernels.
pub const PRECOMPILED_WINDOW_BITS: u8 = 16;

/// The slots of the devices with precompiled kernels.
pub const PRECOMPILED_INFLIGHT: usize = 2;

/// The scalars that a CUDA thread walks.
pub const CUDA_INCREMENT_STRIDE: usize = 32;

/// The threads of a CUDA block.
pub const CUDA_BLOCK_SIZE: usize = 128;

/// The scalars that a Vulkan thread inverts together.
pub const VULKAN_CHUNK_SIZE: usize = 8;

/// The threads of a Vulkan workgroup.
pub const VULKAN_WORKGROUP_SIZE: usize = 64;

/// The groups of `group` threads that cover `count` addresses when a thread
/// takes `per_thread` of them.
pub open spec fn groups_for(count: nat, per_thread: nat, group: nat) -> nat {
    chains_for(chains_for(count, per_thread), group)
}

/// The groups of `group` threads that cover `count` addresses when a thread
/// takes `per_thread` of them.
pub fn group_count(count: usize, per_thread: usize, group: usize) -> (r: usize)
    ensures
        r == groups_for(count as nat, per_thread as nat, group as nat),
{
    chain_count(chain_count(count, per_thread), group)
}

/// So many chains cover every address, and one fewer would not.
pub proof fn law_chains_cover(count: nat, stride: nat)
    ensures
        chains_for(count, stride) * chain_len(stride) >= count,
        count > 0 ==> chains_for(count, stride) > 0 && (chains_for(count, stride) - 1) * chain_len(
            stride,
        ) < count,
{
    let len = chain_len(stride) as int;
    let padded = (count + len - 1) as int;
    let chains = chains_for(count, stride) as int;
    lemma_fundamental_div_mod(padded, len);
    assert(chains * len >= count) by (nonlinear_arith)
        requires
            padded == len * chains + padded % len,
            padded % len < len,
            padded == count + len - 1,
    ;
    if count > 0 {
        assert(chains > 0) by (nonlinear_arith)
            requires
                chains * len >= count,
                count > 0,
                len > 0,
        ;
        assert((chains - 1) * len < count) by (nonlinear_arith)
            requires
                padded == len * chains + padded % len,
                padded % len >= 0,
                padded == count + len - 1,
        ;
    }
}

/// The groups of a launch cover every address, and one fewer would not.
pub proof fn law_groups_cover(count: nat, per_thread: nat, group: nat)
    ensures
        groups_for(count, per_thread, group) * chain_len(group) * chain_len(per_thread) >= count,
        count > 0 ==> groups_for(count, per_thread, group) > 0 && (groups_for(
            count,
            per_thread,
            group,
        ) - 1) * chain_len(group) * chain_len(per_thread) < count,
{
    let threads = chains_for(count, per_thread);
    let groups = chains_for(threads, group);
    let g = chain_len(group);
    let p = chain_len(per_thread);
    law_chains_cover(count, per_thread);
    law_chains_cover(threads, group);
    assert(groups * g * p >= count) by (nonlinear_arith)
        requires
            groups * g >= threads,
            threads * p >= count,
            p > 0,
    ;
    if count > 0 {
        assert((groups - 1) * g * p < count) by (nonlinear_arith)
            requires
                (groups - 1) * g <= threads - 1,
                (threads - 1) * p < count,
                p > 0,
        ;
    }
}

/// Whether `group` threads may be asked for when tuning.
pub open spec fn tuning_group_allowed(group: Option<usize>) -> bool {
    match group {
        None => true,
        Some(size) => size == 32 || size == 64 || size == 128 || size == 256,
    }
}

/// Checks a group size that was asked for.
pub fn check_tuning_group(group: Option<usize>) -> (r: Result<(), Error>)
    ensures
        r is Ok <==> tuning_group_allowed(group),
        r matches Err(e) ==> e == Error::UnsupportedTuningGroup,
{
    match group {
        None => Ok(()),
        Some(size) => if size == 32 || size == 64 || size == 128 || size == 256 {
            Ok(())
        } else {
            Err(Error::UnsupportedTuningGroup)
        },
    }
}

/// Checks a group size that was asked for against the kernel that came out:
/// whole execution widths, and no more threads than it takes.
pub fn check_tuned_kernel(group: Option<usize>, width: usize, max_threads: usize) -> (r: Result<
    (),
    Error,
>)
    ensures
        r is Ok <==> (group matches Some(size) ==> width > 0 && size % width == 0 && size
            <= max_threads),
        r matches Err(e) ==> e == Error::InvalidTunedGroup,
{
    match group {
        None => Ok(()),
        Some(size) => if width > 0 && size % width == 0 && size <= max_threads {
            Ok(())
        } else {
            Err(Error::InvalidTunedGroup)
        },
    }
}

/// The group size used where none was asked for: 128 threads or one execution
/// width, as far as the kernel takes them, in whole widths.
pub open spec fn default_group(width: nat, max_threads: nat) -> nat {
    let wanted = if width > 128 {
        width
    } else {
        128
    };
    let most = if wanted < max_threads {
        wanted
    } else {
        max_threads
    };
    most / width * width
}

/// Whether a group of `size` threads can be launched.
pub open spec fn group_launchable(size: nat, width: nat, max_threads: nat) -> bool {
    0 < size <= max_threads && size <= 256 && size % width == 0
}

/// The threads per group of a launch.
pub fn dispatch_group(group: Option<usize>, width: usize, max_threads: usize) -> (r: Result<
    usize,
    Error,
>)
    ensures
        r == (if width == 0 || max_threads < width {
            Err::<usize, Error>(Error::InvalidThreadLimits)
        } else {
            let size = match group {
                Some(size) => size,
                None => default_group(width as nat, max_threads as nat) as usize,
            };
            if group_launchable(size as nat, width as nat, max_threads as nat) {
                Ok(size)
            } else {
                Err(Error::InvalidDispatchGroup)
            }
        }),
{
    if width == 0 || max_threads < width {
        return Err(Error::InvalidThreadLimits);
    }
    let size: usize = match group {
        Some(size) => size,
        None => {
            let wanted: usize = if width > 128 { width } else { 128 };
            let most: usize = if wanted < max_threads { wanted } else { max_threads };
            proof {
                lemma_fundamental_div_mod(most as int, width as int);
                assert(most as int / width as int * width as int <= most) by (nonlinear_arith)
                    requires
                        most == width as int * (most as int / width as int) + most as int
                            % width as int,
                        most as int % width as int >= 0,
                ;
            }
            most / width * width
        },
    };
    if size > 0 && size <= max_threads && size <= 256 && size % width == 0 {
        Ok(size)
    } else {
        Err(Error::InvalidDispatchGroup)
    }
}

/// The default group can be launched on every kernel whose execution width is
/// at most 256 and whose limits make sense.
pub proof fn law_default_group_launchable(width: nat, max_threads: nat)
    requires
        0 < width <= 256,
        width <= max_threads,
    ensures
        group_launchable(default_group(width, max_threads), width, max_threads),
{
    let wanted = if width > 128 {
        width
    } else {
        128
    };
    let most = if wanted < max_threads {
        wanted
    } else {
        max_threads
    };
    let whole = (most / width) as int;
    lemma_fundamental_div_mod(most as int, width as int);
    assert(whole >= 1) by (nonlinear_arith)
        requires
            most == width * whole + most % width,
            most % width < width,
            most >= width,
    ;
    assert(whole * width <= most && whole * width > 0) by (nonlinear_arith)
        requires
            most == width * whole + most % width,
            most % width >= 0,
            whole >= 1,
            width > 0,
    ;
    vstd::arithmetic::div_mod::lemma_mod_multiples_basic(whole, width as int);
}

}
