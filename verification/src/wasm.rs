//! Byte rewriting of the prebuilt decoder module: the two streams are
//! appended to its data segment, five `u32` slots inside the segment are
//! pointed at them, and the memory floor is raised to fit.

use vstd::prelude::*;

verus! {

/// Why a module could not be patched.
#[derive(Clone, Copy, Debug, PartialEq, Eq, Structural)]
pub enum WasmPatchError {
    /// A slot address lies outside the rewritten data segment.
    SlotOutOfRange,
    /// An embedded address does not fit 32 bits.
    AddressOverflow,
}

/// What the rewriter reads from the decoder module: the data segment with
/// its base address, the exported global values, and the memory floor.
#[derive(Clone, Debug, PartialEq, Eq)]
pub struct ModuleInfo {
    /// The active data segment's `i32.const` offset.
    pub base: u32,
    /// The data segment's payload.
    pub segment: Vec<u8>,
    /// The exported `__data_end` value.
    pub data_end: u32,
    /// The address of the slot naming the range stream's start.
    pub urange_start: u32,
    /// The address of the slot naming the range stream's length.
    pub urange_len: u32,
    /// The address of the slot naming the identifier stream's start.
    pub fid_start: u32,
    /// The address of the slot naming the identifier stream's length.
    pub fid_len: u32,
    /// The address of the slot naming the heap's start.
    pub heap_start: u32,
    /// The memory's current minimum, in 64 KiB pages.
    pub mem_min_pages: u64,
}

/// The rewritten payload and memory floor.
#[derive(Clone, Debug, PartialEq, Eq)]
pub struct PatchedModule {
    pub segment: Vec<u8>,
    pub min_pages: u64,
}

/// `v` written little-endian over four bytes at `off`.
pub open spec fn write_le32(s: Seq<u8>, off: int, v: u32) -> Seq<u8> {
    s.update(off, (v % 256) as u8).update(off + 1, ((v / 256) % 256) as u8).update(
        off + 2,
        ((v / 65536) % 256) as u8,
    ).update(off + 3, ((v / 16777216) % 256) as u8)
}

fn write_le32_exec(v: &mut Vec<u8>, off: usize, val: u32)
    requires
        off + 4 <= old(v)@.len(),
    ensures
        final(v)@ == write_le32(old(v)@, off as int, val),
{
    let n: usize = v.len();
    proof {
        assert(off + 4 <= n);
    }
    v[off] = (val % 256) as u8;
    v[off + 1] = ((val / 256) % 256) as u8;
    v[off + 2] = ((val / 65536) % 256) as u8;
    v[off + 3] = ((val / 16777216) % 256) as u8;
}

/// Whether a four-byte slot at address `addr` fits the rewritten segment.
pub open spec fn slot_ok(addr: int, base: int, total: int) -> bool {
    base <= addr && addr + 4 <= base + total
}

/// Rewrites the data payload — the old bytes, then the range stream, then
/// the identifier stream, with the five slots repointed — and raises the
/// memory floor to hold the data and the requested heap.
pub fn patch_module(
    info: &ModuleInfo,
    urange_data: &[u8],
    fid_data: &[u8],
    heap_size: usize,
) -> (r: Result<PatchedModule, WasmPatchError>)
    requires
        info.data_end + heap_size + urange_data@.len() + fid_data@.len()
            < 0x4000_0000_0000_0000,
        info.segment@.len() + urange_data@.len() + fid_data@.len() < 0x4000_0000_0000_0000,
    ensures
        ({
            let old_len = info.segment@.len() as int;
            let ulen = urange_data@.len() as int;
            let flen = fid_data@.len() as int;
            let total = old_len + ulen + flen;
            let u_start = info.base + old_len;
            let f_start = info.base + old_len + ulen;
            let h_start = info.base + old_len + ulen + flen;
            if !(h_start <= u32::MAX && ulen <= u32::MAX && flen <= u32::MAX) {
                r == Err::<PatchedModule, WasmPatchError>(WasmPatchError::AddressOverflow)
            } else if !(slot_ok(info.urange_start as int, info.base as int, total) && slot_ok(
                info.urange_len as int,
                info.base as int,
                total,
            ) && slot_ok(info.fid_start as int, info.base as int, total) && slot_ok(
                info.fid_len as int,
                info.base as int,
                total,
            ) && slot_ok(info.heap_start as int, info.base as int, total)) {
                r == Err::<PatchedModule, WasmPatchError>(WasmPatchError::SlotOutOfRange)
            } else {
                let plain = info.segment@ + urange_data@ + fid_data@;
                let patched = write_le32(
                    write_le32(
                        write_le32(
                            write_le32(
                                write_le32(
                                    plain,
                                    info.urange_start - info.base,
                                    u_start as u32,
                                ),
                                info.urange_len - info.base,
                                ulen as u32,
                            ),
                            info.fid_start - info.base,
                            f_start as u32,
                        ),
                        info.fid_len - info.base,
                        flen as u32,
                    ),
                    info.heap_start - info.base,
                    h_start as u32,
                );
                let new_size = info.data_end + heap_size + ulen + flen;
                let pages = (new_size + 65535) / 65536;
                let floor: int = if info.mem_min_pages >= pages {
                    info.mem_min_pages as int
                } else {
                    pages
                };
                r matches Ok(m) && m.segment@ == patched && m.min_pages == floor
            }
        }),
{
    let old_len: usize = info.segment.len();
    let ulen: usize = urange_data.len();
    let flen: usize = fid_data.len();
    let u_start: u64 = info.base as u64 + old_len as u64;
    let f_start: u64 = u_start + ulen as u64;
    let h_start: u64 = f_start + flen as u64;
    if !(h_start <= 0xFFFF_FFFF && ulen as u64 <= 0xFFFF_FFFF && flen as u64 <= 0xFFFF_FFFF) {
        return Err(WasmPatchError::AddressOverflow);
    }
    let total: u64 = old_len as u64 + ulen as u64 + flen as u64;
    let base: u64 = info.base as u64;
    if !(base <= info.urange_start as u64 && info.urange_start as u64 + 4 <= base + total && base
        <= info.urange_len as u64 && info.urange_len as u64 + 4 <= base + total && base
        <= info.fid_start as u64 && info.fid_start as u64 + 4 <= base + total && base
        <= info.fid_len as u64 && info.fid_len as u64 + 4 <= base + total && base
        <= info.heap_start as u64 && info.heap_start as u64 + 4 <= base + total) {
        return Err(WasmPatchError::SlotOutOfRange);
    }
    let mut segment: Vec<u8> = Vec::new();
    segment.extend_from_slice(info.segment.as_slice());
    segment.extend_from_slice(urange_data);
    segment.extend_from_slice(fid_data);
    proof {
        assert(segment@ =~= info.segment@ + urange_data@ + fid_data@);
    }
    write_le32_exec(&mut segment, info.urange_start as usize - info.base as usize, u_start as u32);
    write_le32_exec(&mut segment, info.urange_len as usize - info.base as usize, ulen as u32);
    write_le32_exec(&mut segment, info.fid_start as usize - info.base as usize, f_start as u32);
    write_le32_exec(&mut segment, info.fid_len as usize - info.base as usize, flen as u32);
    write_le32_exec(&mut segment, info.heap_start as usize - info.base as usize, h_start as u32);
    let new_size: u64 = info.data_end as u64 + heap_size as u64 + ulen as u64 + flen as u64;
    let pages: u64 = (new_size + 65535) / 65536;
    let min_pages: u64 = if info.mem_min_pages >= pages {
        info.mem_min_pages
    } else {
        pages
    };
    Ok(PatchedModule { segment, min_pages })
}

} // verus!
