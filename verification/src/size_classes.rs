//! The size classes: a fixed schedule of block sizes, each with the size of
//! its superblocks, the number of blocks in one, and the cache capacity.

use vstd::prelude::*;
use vstd::arithmetic::power2::{pow2, lemma2_to64};
use vstd::bits::lemma_u32_shl_is_mul;
use crate::heap::MAX_BLOCK_NUM;

verus! {

/// Number of size classes, with class 0 standing for large blocks.
pub const MAX_SZ_IDX: usize = 40;

/// The largest size served from a size class.
pub const MAX_SZ: usize = 14336;

/// The least superblock size: 16 pages.
pub const MIN_SB_SIZE: u32 = 65536;

/// One size class.
#[derive(Clone, Copy, Debug)]
pub struct SizeClassData {
    block_size: u32,
    sb_size: u32,
    block_num: u32,
    cache_block_num: u32,
}

/// A yes-or-no column of the schedule.
#[derive(Clone, Copy, Debug, PartialEq, Eq, Structural)]
pub enum SizeClassOpt {
    Yes,
    No,
}

impl SizeClassData {
    /// Bytes per block.
    pub closed spec fn spec_get_block_size(&self) -> u32 {
        self.block_size
    }

    /// Bytes per superblock.
    pub closed spec fn spec_get_sb_size(&self) -> u32 {
        self.sb_size
    }

    /// Blocks per superblock.
    pub closed spec fn spec_get_block_num(&self) -> u32 {
        self.block_num
    }

    /// Blocks that a thread may keep of this class.
    pub closed spec fn spec_get_cache_block_num(&self) -> u32 {
        self.cache_block_num
    }

    /// What the allocator relies on in a class: whole pages, at least the
    /// least superblock size, cut into equal blocks without remainder, fewer
    /// than `MAX_BLOCK_NUM` of them, all of which a thread may keep.
    pub open spec fn wf(&self) -> bool {
        &&& self.spec_get_block_size() >= 8
        &&& self.spec_get_block_size() % 8 == 0
        &&& self.spec_get_sb_size() % 4096 == 0
        &&& self.spec_get_sb_size() >= MIN_SB_SIZE
        &&& self.spec_get_sb_size() == self.spec_get_block_num() * self.spec_get_block_size()
        &&& 0 < self.spec_get_block_num() < MAX_BLOCK_NUM
        &&& self.spec_get_cache_block_num() == self.spec_get_block_num()
    }

    /// Bytes per block.
    #[verifier::when_used_as_spec(spec_get_block_size)]
    pub fn get_block_size(&self) -> (r: u32)
        ensures
            r == self.spec_get_block_size(),
    {
        self.block_size
    }

    /// Bytes per superblock.
    #[verifier::when_used_as_spec(spec_get_sb_size)]
    pub fn get_sb_size(&self) -> (r: u32)
        ensures
            r == self.spec_get_sb_size(),
    {
        self.sb_size
    }

    /// Blocks per superblock.
    #[verifier::when_used_as_spec(spec_get_block_num)]
    pub fn get_block_num(&self) -> (r: u32)
        ensures
            r == self.spec_get_block_num(),
    {
        self.block_num
    }

    /// Blocks that a thread may keep of this class.
    #[verifier::when_used_as_spec(spec_get_cache_block_num)]
    pub fn get_cache_block_num(&self) -> (r: u32)
        ensures
            r == self.spec_get_cache_block_num(),
    {
        self.cache_block_num
    }
}

/// The block size that a schedule row stands for: one group base plus a
/// number of steps.
pub open spec fn spec_row_block_size(
    row: (u32, u32, u32, u32, SizeClassOpt, SizeClassOpt, u32, u32),
) -> int {
    pow2(row.1 as nat) + row.3 * pow2(row.2 as nat)
}

/// Whether the sizes of a row can be computed in 32 bits.
pub open spec fn spec_row_fits(
    row: (u32, u32, u32, u32, SizeClassOpt, SizeClassOpt, u32, u32),
) -> bool {
    &&& row.1 < 32
    &&& row.2 < 32
    &&& spec_row_block_size(row) <= u32::MAX
    &&& row.6 * 4096 <= u32::MAX
}

/// The class that a schedule row describes, if it describes one: the block
/// size and the superblock size of the schedule, with the block counts still
/// to be filled in.
pub fn size_class_filter_init(
    row: &(u32, u32, u32, u32, SizeClassOpt, SizeClassOpt, u32, u32),
) -> (r: Option<SizeClassData>)
    requires
        row.5 == SizeClassOpt::Yes ==> spec_row_fits(*row),
    ensures
        (row.5 == SizeClassOpt::Yes) == r.is_some(),
        r.is_some() ==> {
            &&& r.unwrap().spec_get_block_size() == spec_row_block_size(*row)
            &&& r.unwrap().spec_get_sb_size() == row.6 * 4096
            &&& r.unwrap().spec_get_block_num() == 0
            &&& r.unwrap().spec_get_cache_block_num() == 0
        },
{
    match row.5 {
        SizeClassOpt::Yes => {
            let lg_grp: u32 = row.1;
            let lg_delta: u32 = row.2;
            let ndelta: u32 = row.3;
            let pgs: u32 = row.6;
            proof {
                vstd::arithmetic::power2::lemma_pow2_pos(lg_grp as nat);
                vstd::arithmetic::power2::lemma_pow2_pos(lg_delta as nat);
                assert(ndelta * pow2(lg_delta as nat) >= 0) by (nonlinear_arith)
                    requires
                        pow2(lg_delta as nat) > 0,
                ;
                lemma_u32_shl_is_mul(1, lg_grp);
                lemma_u32_shl_is_mul(ndelta, lg_delta);
            }
            Some(
                SizeClassData {
                    block_size: (1u32 << lg_grp) + (ndelta << lg_delta),
                    sb_size: pgs * 4096,
                    block_num: 0,
                    cache_block_num: 0,
                },
            )
        },
        SizeClassOpt::No => None,
    }
}

/// Size class data, from jemalloc 5.0. The columns are the index, the log of
/// the group base, the log of the step, the number of steps, whether the size
/// is a multiple of the page size, whether it is served from a size class,
/// the pages of a superblock, and the log of the step in the lookup table.
pub const SIZE_CLASSES_TABLE: [(u32, u32, u32, u32, SizeClassOpt, SizeClassOpt, u32, u32); 235] = [
    (0, 3, 3, 0, SizeClassOpt::No, SizeClassOpt::Yes, 1, 3),
    (1, 3, 3, 1, SizeClassOpt::No, SizeClassOpt::Yes, 1, 3),
    (2, 3, 3, 2, SizeClassOpt::No, SizeClassOpt::Yes, 3, 3),
    (3, 3, 3, 3, SizeClassOpt::No, SizeClassOpt::Yes, 1, 3),
    (4, 5, 3, 1, SizeClassOpt::No, SizeClassOpt::Yes, 5, 3),
    (5, 5, 3, 2, SizeClassOpt::No, SizeClassOpt::Yes, 3, 3),
    (6, 5, 3, 3, SizeClassOpt::No, SizeClassOpt::Yes, 7, 3),
    (7, 5, 3, 4, SizeClassOpt::No, SizeClassOpt::Yes, 1, 3),
    (8, 6, 4, 1, SizeClassOpt::No, SizeClassOpt::Yes, 5, 4),
    (9, 6, 4, 2, SizeClassOpt::No, SizeClassOpt::Yes, 3, 4),
    (10, 6, 4, 3, SizeClassOpt::No, SizeClassOpt::Yes, 7, 4),
    (11, 6, 4, 4, SizeClassOpt::No, SizeClassOpt::Yes, 1, 4),
    (12, 7, 5, 1, SizeClassOpt::No, SizeClassOpt::Yes, 5, 5),
    (13, 7, 5, 2, SizeClassOpt::No, SizeClassOpt::Yes, 3, 5),
    (14, 7, 5, 3, SizeClassOpt::No, SizeClassOpt::Yes, 7, 5),
    (15, 7, 5, 4, SizeClassOpt::No, SizeClassOpt::Yes, 1, 5),
    (16, 8, 6, 1, SizeClassOpt::No, SizeClassOpt::Yes, 5, 6),
    (17, 8, 6, 2, SizeClassOpt::No, SizeClassOpt::Yes, 3, 6),
    (18, 8, 6, 3, SizeClassOpt::No, SizeClassOpt::Yes, 7, 6),
    (19, 8, 6, 4, SizeClassOpt::No, SizeClassOpt::Yes, 1, 6),
    (20, 9, 7, 1, SizeClassOpt::No, SizeClassOpt::Yes, 5, 7),
    (21, 9, 7, 2, SizeClassOpt::No, SizeClassOpt::Yes, 3, 7),
    (22, 9, 7, 3, SizeClassOpt::No, SizeClassOpt::Yes, 7, 7),
    (23, 9, 7, 4, SizeClassOpt::No, SizeClassOpt::Yes, 1, 7),
    (24, 10, 8, 1, SizeClassOpt::No, SizeClassOpt::Yes, 5, 8),
    (25, 10, 8, 2, SizeClassOpt::No, SizeClassOpt::Yes, 3, 8),
    (26, 10, 8, 3, SizeClassOpt::No, SizeClassOpt::Yes, 7, 8),
    (27, 10, 8, 4, SizeClassOpt::No, SizeClassOpt::Yes, 1, 8),
    (28, 11, 9, 1, SizeClassOpt::No, SizeClassOpt::Yes, 5, 9),
    (29, 11, 9, 2, SizeClassOpt::No, SizeClassOpt::Yes, 3, 9),
    (30, 11, 9, 3, SizeClassOpt::No, SizeClassOpt::Yes, 7, 9),
    (31, 11, 9, 4, SizeClassOpt::Yes, SizeClassOpt::Yes, 1, 9),
    (32, 12, 10, 1, SizeClassOpt::No, SizeClassOpt::Yes, 5, 0),
    (33, 12, 10, 2, SizeClassOpt::No, SizeClassOpt::Yes, 3, 0),
    (34, 12, 10, 3, SizeClassOpt::No, SizeClassOpt::Yes, 7, 0),
    (35, 12, 10, 4, SizeClassOpt::Yes, SizeClassOpt::Yes, 2, 0),
    (36, 13, 11, 1, SizeClassOpt::No, SizeClassOpt::Yes, 5, 0),
    (37, 13, 11, 2, SizeClassOpt::Yes, SizeClassOpt::Yes, 3, 0),
    (38, 13, 11, 3, SizeClassOpt::No, SizeClassOpt::Yes, 7, 0),
    (39, 13, 11, 4, SizeClassOpt::Yes, SizeClassOpt::No, 0, 0),
    (40, 14, 12, 1, SizeClassOpt::Yes, SizeClassOpt::No, 0, 0),
    (41, 14, 12, 2, SizeClassOpt::Yes, SizeClassOpt::No, 0, 0),
    (42, 14, 12, 3, SizeClassOpt::Yes, SizeClassOpt::No, 0, 0),
    (43, 14, 12, 4, SizeClassOpt::Yes, SizeClassOpt::No, 0, 0),
    (44, 15, 13, 1, SizeClassOpt::Yes, SizeClassOpt::No, 0, 0),
    (45, 15, 13, 2, SizeClassOpt::Yes, SizeClassOpt::No, 0, 0),
    (46, 15, 13, 3, SizeClassOpt::Yes, SizeClassOpt::No, 0, 0),
    (47, 15, 13, 4, SizeClassOpt::Yes, SizeClassOpt::No, 0, 0),
    (48, 16, 14, 1, SizeClassOpt::Yes, SizeClassOpt::No, 0, 0),
    (49, 16, 14, 2, SizeClassOpt::Yes, SizeClassOpt::No, 0, 0),
    (50, 16, 14, 3, SizeClassOpt::Yes, SizeClassOpt::No, 0, 0),
    (51, 16, 14, 4, SizeClassOpt::Yes, SizeClassOpt::No, 0, 0),
    (52, 17, 15, 1, SizeClassOpt::Yes, SizeClassOpt::No, 0, 0),
    (53, 17, 15, 2, SizeClassOpt::Yes, SizeClassOpt::No, 0, 0),
    (54, 17, 15, 3, SizeClassOpt::Yes, SizeClassOpt::No, 0, 0),
    (55, 17, 15, 4, SizeClassOpt::Yes, SizeClassOpt::No, 0, 0),
    (56, 18, 16, 1, SizeClassOpt::Yes, SizeClassOpt::No, 0, 0),
    (57, 18, 16, 2, SizeClassOpt::Yes, SizeClassOpt::No, 0, 0),
    (58, 18, 16, 3, SizeClassOpt::Yes, SizeClassOpt::No, 0, 0),
    (59, 18, 16, 4, SizeClassOpt::Yes, SizeClassOpt::No, 0, 0),
    (60, 19, 17, 1, SizeClassOpt::Yes, SizeClassOpt::No, 0, 0),
    (61, 19, 17, 2, SizeClassOpt::Yes, SizeClassOpt::No, 0, 0),
    (62, 19, 17, 3, SizeClassOpt::Yes, SizeClassOpt::No, 0, 0),
    (63, 19, 17, 4, SizeClassOpt::Yes, SizeClassOpt::No, 0, 0),
    (64, 20, 18, 1, SizeClassOpt::Yes, SizeClassOpt::No, 0, 0),
    (65, 20, 18, 2, SizeClassOpt::Yes, SizeClassOpt::No, 0, 0),
    (66, 20, 18, 3, SizeClassOpt::Yes, SizeClassOpt::No, 0, 0),
    (67, 20, 18, 4, SizeClassOpt::Yes, SizeClassOpt::No, 0, 0),
    (68, 21, 19, 1, SizeClassOpt::Yes, SizeClassOpt::No, 0, 0),
    (69, 21, 19, 2, SizeClassOpt::Yes, SizeClassOpt::No, 0, 0),
    (70, 21, 19, 3, SizeClassOpt::Yes, SizeClassOpt::No, 0, 0),
    (71, 21, 19, 4, SizeClassOpt::Yes, SizeClassOpt::No, 0, 0),
    (72, 22, 20, 1, SizeClassOpt::Yes, SizeClassOpt::No, 0, 0),
    (73, 22, 20, 2, SizeClassOpt::Yes, SizeClassOpt::No, 0, 0),
    (74, 22, 20, 3, SizeClassOpt::Yes, SizeClassOpt::No, 0, 0),
    (75, 22, 20, 4, SizeClassOpt::Yes, SizeClassOpt::No, 0, 0),
    (76, 23, 21, 1, SizeClassOpt::Yes, SizeClassOpt::No, 0, 0),
    (77, 23, 21, 2, SizeClassOpt::Yes, SizeClassOpt::No, 0, 0),
    (78, 23, 21, 3, SizeClassOpt::Yes, SizeClassOpt::No, 0, 0),
    (79, 23, 21, 4, SizeClassOpt::Yes, SizeClassOpt::No, 0, 0),
    (80, 24, 22, 1, SizeClassOpt::Yes, SizeClassOpt::No, 0, 0),
    (81, 24, 22, 2, SizeClassOpt::Yes, SizeClassOpt::No, 0, 0),
    (82, 24, 22, 3, SizeClassOpt::Yes, SizeClassOpt::No, 0, 0),
    (83, 24, 22, 4, SizeClassOpt::Yes, SizeClassOpt::No, 0, 0),
    (84, 25, 23, 1, SizeClassOpt::Yes, SizeClassOpt::No, 0, 0),
    (85, 25, 23, 2, SizeClassOpt::Yes, SizeClassOpt::No, 0, 0),
    (86, 25, 23, 3, SizeClassOpt::Yes, SizeClassOpt::No, 0, 0),
    (87, 25, 23, 4, SizeClassOpt::Yes, SizeClassOpt::No, 0, 0),
    (88, 26, 24, 1, SizeClassOpt::Yes, SizeClassOpt::No, 0, 0),
    (89, 26, 24, 2, SizeClassOpt::Yes, SizeClassOpt::No, 0, 0),
    (90, 26, 24, 3, SizeClassOpt::Yes, SizeClassOpt::No, 0, 0),
    (91, 26, 24, 4, SizeClassOpt::Yes, SizeClassOpt::No, 0, 0),
    (92, 27, 25, 1, SizeClassOpt::Yes, SizeClassOpt::No, 0, 0),
    (93, 27, 25, 2, SizeClassOpt::Yes, SizeClassOpt::No, 0, 0),
    (94, 27, 25, 3, SizeClassOpt::Yes, SizeClassOpt::No, 0, 0),
    (95, 27, 25, 4, SizeClassOpt::Yes, SizeClassOpt::No, 0, 0),
    (96, 28, 26, 1, SizeClassOpt::Yes, SizeClassOpt::No, 0, 0),
    (97, 28, 26, 2, SizeClassOpt::Yes, SizeClassOpt::No, 0, 0),
    (98, 28, 26, 3, SizeClassOpt::Yes, SizeClassOpt::No, 0, 0),
    (99, 28, 26, 4, SizeClassOpt::Yes, SizeClassOpt::No, 0, 0),
    (100, 29, 27, 1, SizeClassOpt::Yes, SizeClassOpt::No, 0, 0),
    (101, 29, 27, 2, SizeClassOpt::Yes, SizeClassOpt::No, 0, 0),
    (102, 29, 27, 3, SizeClassOpt::Yes, SizeClassOpt::No, 0, 0),
    (103, 29, 27, 4, SizeClassOpt::Yes, SizeClassOpt::No, 0, 0),
    (104, 30, 28, 1, SizeClassOpt::Yes, SizeClassOpt::No, 0, 0),
    (105, 30, 28, 2, SizeClassOpt::Yes, SizeClassOpt::No, 0, 0),
    (106, 30, 28, 3, SizeClassOpt::Yes, SizeClassOpt::No, 0, 0),
    (107, 30, 28, 4, SizeClassOpt::Yes, SizeClassOpt::No, 0, 0),
    (108, 31, 29, 1, SizeClassOpt::Yes, SizeClassOpt::No, 0, 0),
    (109, 31, 29, 2, SizeClassOpt::Yes, SizeClassOpt::No, 0, 0),
    (110, 31, 29, 3, SizeClassOpt::Yes, SizeClassOpt::No, 0, 0),
    (111, 31, 29, 4, SizeClassOpt::Yes, SizeClassOpt::No, 0, 0),
    (112, 32, 30, 1, SizeClassOpt::Yes, SizeClassOpt::No, 0, 0),
    (113, 32, 30, 2, SizeClassOpt::Yes, SizeClassOpt::No, 0, 0),
    (114, 32, 30, 3, SizeClassOpt::Yes, SizeClassOpt::No, 0, 0),
    (115, 32, 30, 4, SizeClassOpt::Yes, SizeClassOpt::No, 0, 0),
    (116, 33, 31, 1, SizeClassOpt::Yes, SizeClassOpt::No, 0, 0),
    (117, 33, 31, 2, SizeClassOpt::Yes, SizeClassOpt::No, 0, 0),
    (118, 33, 31, 3, SizeClassOpt::Yes, SizeClassOpt::No, 0, 0),
    (119, 33, 31, 4, SizeClassOpt::Yes, SizeClassOpt::No, 0, 0),
    (120, 34, 32, 1, SizeClassOpt::Yes, SizeClassOpt::No, 0, 0),
    (121, 34, 32, 2, SizeClassOpt::Yes, SizeClassOpt::No, 0, 0),
    (122, 34, 32, 3, SizeClassOpt::Yes, SizeClassOpt::No, 0, 0),
    (123, 34, 32, 4, SizeClassOpt::Yes, SizeClassOpt::No, 0, 0),
    (124, 35, 33, 1, SizeClassOpt::Yes, SizeClassOpt::No, 0, 0),
    (125, 35, 33, 2, SizeClassOpt::Yes, SizeClassOpt::No, 0, 0),
    (126, 35, 33, 3, SizeClassOpt::Yes, SizeClassOpt::No, 0, 0),
    (127, 35, 33, 4, SizeClassOpt::Yes, SizeClassOpt::No, 0, 0),
    (128, 36, 34, 1, SizeClassOpt::Yes, SizeClassOpt::No, 0, 0),
    (129, 36, 34, 2, SizeClassOpt::Yes, SizeClassOpt::No, 0, 0),
    (130, 36, 34, 3, SizeClassOpt::Yes, SizeClassOpt::No, 0, 0),
    (131, 36, 34, 4, SizeClassOpt::Yes, SizeClassOpt::No, 0, 0),
    (132, 37, 35, 1, SizeClassOpt::Yes, SizeClassOpt::No, 0, 0),
    (133, 37, 35, 2, SizeClassOpt::Yes, SizeClassOpt::No, 0, 0),
    (134, 37, 35, 3, SizeClassOpt::Yes, SizeClassOpt::No, 0, 0),
    (135, 37, 35, 4, SizeClassOpt::Yes, SizeClassOpt::No, 0, 0),
    (136, 38, 36, 1, SizeClassOpt::Yes, SizeClassOpt::No, 0, 0),
    (137, 38, 36, 2, SizeClassOpt::Yes, SizeClassOpt::No, 0, 0),
    (138, 38, 36, 3, SizeClassOpt::Yes, SizeClassOpt::No, 0, 0),
    (139, 38, 36, 4, SizeClassOpt::Yes, SizeClassOpt::No, 0, 0),
    (140, 39, 37, 1, SizeClassOpt::Yes, SizeClassOpt::No, 0, 0),
    (141, 39, 37, 2, SizeClassOpt::Yes, SizeClassOpt::No, 0, 0),
    (142, 39, 37, 3, SizeClassOpt::Yes, SizeClassOpt::No, 0, 0),
    (143, 39, 37, 4, SizeClassOpt::Yes, SizeClassOpt::No, 0, 0),
    (144, 40, 38, 1, SizeClassOpt::Yes, SizeClassOpt::No, 0, 0),
    (145, 40, 38, 2, SizeClassOpt::Yes, SizeClassOpt::No, 0, 0),
    (146, 40, 38, 3, SizeClassOpt::Yes, SizeClassOpt::No, 0, 0),
    (147, 40, 38, 4, SizeClassOpt::Yes, SizeClassOpt::No, 0, 0),
    (148, 41, 39, 1, SizeClassOpt::Yes, SizeClassOpt::No, 0, 0),
    (149, 41, 39, 2, SizeClassOpt::Yes, SizeClassOpt::No, 0, 0),
    (150, 41, 39, 3, SizeClassOpt::Yes, SizeClassOpt::No, 0, 0),
    (151, 41, 39, 4, SizeClassOpt::Yes, SizeClassOpt::No, 0, 0),
    (152, 42, 40, 1, SizeClassOpt::Yes, SizeClassOpt::No, 0, 0),
    (153, 42, 40, 2, SizeClassOpt::Yes, SizeClassOpt::No, 0, 0),
    (154, 42, 40, 3, SizeClassOpt::Yes, SizeClassOpt::No, 0, 0),
    (155, 42, 40, 4, SizeClassOpt::Yes, SizeClassOpt::No, 0, 0),
    (156, 43, 41, 1, SizeClassOpt::Yes, SizeClassOpt::No, 0, 0),
    (157, 43, 41, 2, SizeClassOpt::Yes, SizeClassOpt::No, 0, 0),
    (158, 43, 41, 3, SizeClassOpt::Yes, SizeClassOpt::No, 0, 0),
    (159, 43, 41, 4, SizeClassOpt::Yes, SizeClassOpt::No, 0, 0),
    (160, 44, 42, 1, SizeClassOpt::Yes, SizeClassOpt::No, 0, 0),
    (161, 44, 42, 2, SizeClassOpt::Yes, SizeClassOpt::No, 0, 0),
    (162, 44, 42, 3, SizeClassOpt::Yes, SizeClassOpt::No, 0, 0),
    (163, 44, 42, 4, SizeClassOpt::Yes, SizeClassOpt::No, 0, 0),
    (164, 45, 43, 1, SizeClassOpt::Yes, SizeClassOpt::No, 0, 0),
    (165, 45, 43, 2, SizeClassOpt::Yes, SizeClassOpt::No, 0, 0),
    (166, 45, 43, 3, SizeClassOpt::Yes, SizeClassOpt::No, 0, 0),
    (167, 45, 43, 4, SizeClassOpt::Yes, SizeClassOpt::No, 0, 0),
    (168, 46, 44, 1, SizeClassOpt::Yes, SizeClassOpt::No, 0, 0),
    (169, 46, 44, 2, SizeClassOpt::Yes, SizeClassOpt::No, 0, 0),
    (170, 46, 44, 3, SizeClassOpt::Yes, SizeClassOpt::No, 0, 0),
    (171, 46, 44, 4, SizeClassOpt::Yes, SizeClassOpt::No, 0, 0),
    (172, 47, 45, 1, SizeClassOpt::Yes, SizeClassOpt::No, 0, 0),
    (173, 47, 45, 2, SizeClassOpt::Yes, SizeClassOpt::No, 0, 0),
    (174, 47, 45, 3, SizeClassOpt::Yes, SizeClassOpt::No, 0, 0),
    (175, 47, 45, 4, SizeClassOpt::Yes, SizeClassOpt::No, 0, 0),
    (176, 48, 46, 1, SizeClassOpt::Yes, SizeClassOpt::No, 0, 0),
    (177, 48, 46, 2, SizeClassOpt::Yes, SizeClassOpt::No, 0, 0),
    (178, 48, 46, 3, SizeClassOpt::Yes, SizeClassOpt::No, 0, 0),
    (179, 48, 46, 4, SizeClassOpt::Yes, SizeClassOpt::No, 0, 0),
    (180, 49, 47, 1, SizeClassOpt::Yes, SizeClassOpt::No, 0, 0),
    (181, 49, 47, 2, SizeClassOpt::Yes, SizeClassOpt::No, 0, 0),
    (182, 49, 47, 3, SizeClassOpt::Yes, SizeClassOpt::No, 0, 0),
    (183, 49, 47, 4, SizeClassOpt::Yes, SizeClassOpt::No, 0, 0),
    (184, 50, 48, 1, SizeClassOpt::Yes, SizeClassOpt::No, 0, 0),
    (185, 50, 48, 2, SizeClassOpt::Yes, SizeClassOpt::No, 0, 0),
    (186, 50, 48, 3, SizeClassOpt::Yes, SizeClassOpt::No, 0, 0),
    (187, 50, 48, 4, SizeClassOpt::Yes, SizeClassOpt::No, 0, 0),
    (188, 51, 49, 1, SizeClassOpt::Yes, SizeClassOpt::No, 0, 0),
    (189, 51, 49, 2, SizeClassOpt::Yes, SizeClassOpt::No, 0, 0),
    (190, 51, 49, 3, SizeClassOpt::Yes, SizeClassOpt::No, 0, 0),
    (191, 51, 49, 4, SizeClassOpt::Yes, SizeClassOpt::No, 0, 0),
    (192, 52, 50, 1, SizeClassOpt::Yes, SizeClassOpt::No, 0, 0),
    (193, 52, 50, 2, SizeClassOpt::Yes, SizeClassOpt::No, 0, 0),
    (194, 52, 50, 3, SizeClassOpt::Yes, SizeClassOpt::No, 0, 0),
    (195, 52, 50, 4, SizeClassOpt::Yes, SizeClassOpt::No, 0, 0),
    (196, 53, 51, 1, SizeClassOpt::Yes, SizeClassOpt::No, 0, 0),
    (197, 53, 51, 2, SizeClassOpt::Yes, SizeClassOpt::No, 0, 0),
    (198, 53, 51, 3, SizeClassOpt::Yes, SizeClassOpt::No, 0, 0),
    (199, 53, 51, 4, SizeClassOpt::Yes, SizeClassOpt::No, 0, 0),
    (200, 54, 52, 1, SizeClassOpt::Yes, SizeClassOpt::No, 0, 0),
    (201, 54, 52, 2, SizeClassOpt::Yes, SizeClassOpt::No, 0, 0),
    (202, 54, 52, 3, SizeClassOpt::Yes, SizeClassOpt::No, 0, 0),
    (203, 54, 52, 4, SizeClassOpt::Yes, SizeClassOpt::No, 0, 0),
    (204, 55, 53, 1, SizeClassOpt::Yes, SizeClassOpt::No, 0, 0),
    (205, 55, 53, 2, SizeClassOpt::Yes, SizeClassOpt::No, 0, 0),
    (206, 55, 53, 3, SizeClassOpt::Yes, SizeClassOpt::No, 0, 0),
    (207, 55, 53, 4, SizeClassOpt::Yes, SizeClassOpt::No, 0, 0),
    (208, 56, 54, 1, SizeClassOpt::Yes, SizeClassOpt::No, 0, 0),
    (209, 56, 54, 2, SizeClassOpt::Yes, SizeClassOpt::No, 0, 0),
    (210, 56, 54, 3, SizeClassOpt::Yes, SizeClassOpt::No, 0, 0),
    (211, 56, 54, 4, SizeClassOpt::Yes, SizeClassOpt::No, 0, 0),
    (212, 57, 55, 1, SizeClassOpt::Yes, SizeClassOpt::No, 0, 0),
    (213, 57, 55, 2, SizeClassOpt::Yes, SizeClassOpt::No, 0, 0),
    (214, 57, 55, 3, SizeClassOpt::Yes, SizeClassOpt::No, 0, 0),
    (215, 57, 55, 4, SizeClassOpt::Yes, SizeClassOpt::No, 0, 0),
    (216, 58, 56, 1, SizeClassOpt::Yes, SizeClassOpt::No, 0, 0),
    (217, 58, 56, 2, SizeClassOpt::Yes, SizeClassOpt::No, 0, 0),
    (218, 58, 56, 3, SizeClassOpt::Yes, SizeClassOpt::No, 0, 0),
    (219, 58, 56, 4, SizeClassOpt::Yes, SizeClassOpt::No, 0, 0),
    (220, 59, 57, 1, SizeClassOpt::Yes, SizeClassOpt::No, 0, 0),
    (221, 59, 57, 2, SizeClassOpt::Yes, SizeClassOpt::No, 0, 0),
    (222, 59, 57, 3, SizeClassOpt::Yes, SizeClassOpt::No, 0, 0),
    (223, 59, 57, 4, SizeClassOpt::Yes, SizeClassOpt::No, 0, 0),
    (224, 60, 58, 1, SizeClassOpt::Yes, SizeClassOpt::No, 0, 0),
    (225, 60, 58, 2, SizeClassOpt::Yes, SizeClassOpt::No, 0, 0),
    (226, 60, 58, 3, SizeClassOpt::Yes, SizeClassOpt::No, 0, 0),
    (227, 60, 58, 4, SizeClassOpt::Yes, SizeClassOpt::No, 0, 0),
    (228, 61, 59, 1, SizeClassOpt::Yes, SizeClassOpt::No, 0, 0),
    (229, 61, 59, 2, SizeClassOpt::Yes, SizeClassOpt::No, 0, 0),
    (230, 61, 59, 3, SizeClassOpt::Yes, SizeClassOpt::No, 0, 0),
    (231, 61, 59, 4, SizeClassOpt::Yes, SizeClassOpt::No, 0, 0),
    (232, 62, 60, 1, SizeClassOpt::Yes, SizeClassOpt::No, 0, 0),
    (233, 62, 60, 2, SizeClassOpt::Yes, SizeClassOpt::No, 0, 0),
    (234, 62, 60, 3, SizeClassOpt::Yes, SizeClassOpt::No, 0, 0),
];

/// Whether row `j` of the schedule describes a class that the allocator can
/// use: it is served from a size class, its sizes fit, its block size is a
/// positive multiple of 8, above that of the row before, and divides the
/// pages of its superblock.
pub open spec fn spec_row_ok(j: int) -> bool {
    let row = SIZE_CLASSES_TABLE[j];
    &&& row.5 == SizeClassOpt::Yes
    &&& spec_row_fits(row)
    &&& spec_row_block_size(row) >= 8
    &&& spec_row_block_size(row) % 8 == 0
    &&& spec_row_block_size(row) <= MAX_SZ
    &&& 0 < row.6 <= 7
    &&& (row.6 * 4096) % spec_row_block_size(row) == 0
    &&& j > 0 ==> spec_row_block_size(SIZE_CLASSES_TABLE[j - 1]) < spec_row_block_size(row)
}

/// The first 39 rows of the schedule are the size classes, in rising order
/// of block size, and the last of them is the largest small size.
pub proof fn lemma_schedule()
    ensures
        forall|j: int| 0 <= j < MAX_SZ_IDX - 1 ==> spec_row_ok(j),
        spec_row_block_size(SIZE_CLASSES_TABLE[0]) == 8,
        spec_row_block_size(SIZE_CLASSES_TABLE[MAX_SZ_IDX - 2]) == MAX_SZ,
{
    lemma2_to64();
    assert forall|j: int| 0 <= j < MAX_SZ_IDX - 1 implies spec_row_ok(j) by {
        assert(spec_row_block_size(SIZE_CLASSES_TABLE[0]) == 8) by {
            assert(pow2(SIZE_CLASSES_TABLE[0].1 as nat) == 8);
            assert(pow2(SIZE_CLASSES_TABLE[0].2 as nat) == 8);
        }
        assert(spec_row_ok(0));
        assert(spec_row_block_size(SIZE_CLASSES_TABLE[1]) == 16) by {
            assert(pow2(SIZE_CLASSES_TABLE[1].1 as nat) == 8);
            assert(pow2(SIZE_CLASSES_TABLE[1].2 as nat) == 8);
        }
        assert(spec_row_ok(1));
        assert(spec_row_block_size(SIZE_CLASSES_TABLE[2]) == 24) by {
            assert(pow2(SIZE_CLASSES_TABLE[2].1 as nat) == 8);
            assert(pow2(SIZE_CLASSES_TABLE[2].2 as nat) == 8);
        }
        assert(spec_row_ok(2));
        assert(spec_row_block_size(SIZE_CLASSES_TABLE[3]) == 32) by {
            assert(pow2(SIZE_CLASSES_TABLE[3].1 as nat) == 8);
            assert(pow2(SIZE_CLASSES_TABLE[3].2 as nat) == 8);
        }
        assert(spec_row_ok(3));
        assert(spec_row_block_size(SIZE_CLASSES_TABLE[4]) == 40) by {
            assert(pow2(SIZE_CLASSES_TABLE[4].1 as nat) == 32);
            assert(pow2(SIZE_CLASSES_TABLE[4].2 as nat) == 8);
        }
        assert(spec_row_ok(4));
        assert(spec_row_block_size(SIZE_CLASSES_TABLE[5]) == 48) by {
            assert(pow2(SIZE_CLASSES_TABLE[5].1 as nat) == 32);
            assert(pow2(SIZE_CLASSES_TABLE[5].2 as nat) == 8);
        }
        assert(spec_row_ok(5));
        assert(spec_row_block_size(SIZE_CLASSES_TABLE[6]) == 56) by {
            assert(pow2(SIZE_CLASSES_TABLE[6].1 as nat) == 32);
            assert(pow2(SIZE_CLASSES_TABLE[6].2 as nat) == 8);
        }
        assert(spec_row_ok(6));
        assert(spec_row_block_size(SIZE_CLASSES_TABLE[7]) == 64) by {
            assert(pow2(SIZE_CLASSES_TABLE[7].1 as nat) == 32);
            assert(pow2(SIZE_CLASSES_TABLE[7].2 as nat) == 8);
        }
        assert(spec_row_ok(7));
        assert(spec_row_block_size(SIZE_CLASSES_TABLE[8]) == 80) by {
            assert(pow2(SIZE_CLASSES_TABLE[8].1 as nat) == 64);
            assert(pow2(SIZE_CLASSES_TABLE[8].2 as nat) == 16);
        }
        assert(spec_row_ok(8));
        assert(spec_row_block_size(SIZE_CLASSES_TABLE[9]) == 96) by {
            assert(pow2(SIZE_CLASSES_TABLE[9].1 as nat) == 64);
            assert(pow2(SIZE_CLASSES_TABLE[9].2 as nat) == 16);
        }
        assert(spec_row_ok(9));
        assert(spec_row_block_size(SIZE_CLASSES_TABLE[10]) == 112) by {
            assert(pow2(SIZE_CLASSES_TABLE[10].1 as nat) == 64);
            assert(pow2(SIZE_CLASSES_TABLE[10].2 as nat) == 16);
        }
        assert(spec_row_ok(10));
        assert(spec_row_block_size(SIZE_CLASSES_TABLE[11]) == 128) by {
            assert(pow2(SIZE_CLASSES_TABLE[11].1 as nat) == 64);
            assert(pow2(SIZE_CLASSES_TABLE[11].2 as nat) == 16);
        }
        assert(spec_row_ok(11));
        assert(spec_row_block_size(SIZE_CLASSES_TABLE[12]) == 160) by {
            assert(pow2(SIZE_CLASSES_TABLE[12].1 as nat) == 128);
            assert(pow2(SIZE_CLASSES_TABLE[12].2 as nat) == 32);
        }
        assert(spec_row_ok(12));
        assert(spec_row_block_size(SIZE_CLASSES_TABLE[13]) == 192) by {
            assert(pow2(SIZE_CLASSES_TABLE[13].1 as nat) == 128);
            assert(pow2(SIZE_CLASSES_TABLE[13].2 as nat) == 32);
        }
        assert(spec_row_ok(13));
        assert(spec_row_block_size(SIZE_CLASSES_TABLE[14]) == 224) by {
            assert(pow2(SIZE_CLASSES_TABLE[14].1 as nat) == 128);
            assert(pow2(SIZE_CLASSES_TABLE[14].2 as nat) == 32);
        }
        assert(spec_row_ok(14));
        assert(spec_row_block_size(SIZE_CLASSES_TABLE[15]) == 256) by {
            assert(pow2(SIZE_CLASSES_TABLE[15].1 as nat) == 128);
            assert(pow2(SIZE_CLASSES_TABLE[15].2 as nat) == 32);
        }
        assert(spec_row_ok(15));
        assert(spec_row_block_size(SIZE_CLASSES_TABLE[16]) == 320) by {
            assert(pow2(SIZE_CLASSES_TABLE[16].1 as nat) == 256);
            assert(pow2(SIZE_CLASSES_TABLE[16].2 as nat) == 64);
        }
        assert(spec_row_ok(16));
        assert(spec_row_block_size(SIZE_CLASSES_TABLE[17]) == 384) by {
            assert(pow2(SIZE_CLASSES_TABLE[17].1 as nat) == 256);
            assert(pow2(SIZE_CLASSES_TABLE[17].2 as nat) == 64);
        }
        assert(spec_row_ok(17));
        assert(spec_row_block_size(SIZE_CLASSES_TABLE[18]) == 448) by {
            assert(pow2(SIZE_CLASSES_TABLE[18].1 as nat) == 256);
            assert(pow2(SIZE_CLASSES_TABLE[18].2 as nat) == 64);
        }
        assert(spec_row_ok(18));
        assert(spec_row_block_size(SIZE_CLASSES_TABLE[19]) == 512) by {
            assert(pow2(SIZE_CLASSES_TABLE[19].1 as nat) == 256);
            assert(pow2(SIZE_CLASSES_TABLE[19].2 as nat) == 64);
        }
        assert(spec_row_ok(19));
        assert(spec_row_block_size(SIZE_CLASSES_TABLE[20]) == 640) by {
            assert(pow2(SIZE_CLASSES_TABLE[20].1 as nat) == 512);
            assert(pow2(SIZE_CLASSES_TABLE[20].2 as nat) == 128);
        }
        assert(spec_row_ok(20));
        assert(spec_row_block_size(SIZE_CLASSES_TABLE[21]) == 768) by {
            assert(pow2(SIZE_CLASSES_TABLE[21].1 as nat) == 512);
            assert(pow2(SIZE_CLASSES_TABLE[21].2 as nat) == 128);
        }
        assert(spec_row_ok(21));
        assert(spec_row_block_size(SIZE_CLASSES_TABLE[22]) == 896) by {
            assert(pow2(SIZE_CLASSES_TABLE[22].1 as nat) == 512);
            assert(pow2(SIZE_CLASSES_TABLE[22].2 as nat) == 128);
        }
        assert(spec_row_ok(22));
        assert(spec_row_block_size(SIZE_CLASSES_TABLE[23]) == 1024) by {
            assert(pow2(SIZE_CLASSES_TABLE[23].1 as nat) == 512);
            assert(pow2(SIZE_CLASSES_TABLE[23].2 as nat) == 128);
        }
        assert(spec_row_ok(23));
        assert(spec_row_block_size(SIZE_CLASSES_TABLE[24]) == 1280) by {
            assert(pow2(SIZE_CLASSES_TABLE[24].1 as nat) == 1024);
            assert(pow2(SIZE_CLASSES_TABLE[24].2 as nat) == 256);
        }
        assert(spec_row_ok(24));
        assert(spec_row_block_size(SIZE_CLASSES_TABLE[25]) == 1536) by {
            assert(pow2(SIZE_CLASSES_TABLE[25].1 as nat) == 1024);
            assert(pow2(SIZE_CLASSES_TABLE[25].2 as nat) == 256);
        }
        assert(spec_row_ok(25));
        assert(spec_row_block_size(SIZE_CLASSES_TABLE[26]) == 1792) by {
            assert(pow2(SIZE_CLASSES_TABLE[26].1 as nat) == 1024);
            assert(pow2(SIZE_CLASSES_TABLE[26].2 as nat) == 256);
        }
        assert(spec_row_ok(26));
        assert(spec_row_block_size(SIZE_CLASSES_TABLE[27]) == 2048) by {
            assert(pow2(SIZE_CLASSES_TABLE[27].1 as nat) == 1024);
            assert(pow2(SIZE_CLASSES_TABLE[27].2 as nat) == 256);
        }
        assert(spec_row_ok(27));
        assert(spec_row_block_size(SIZE_CLASSES_TABLE[28]) == 2560) by {
            assert(pow2(SIZE_CLASSES_TABLE[28].1 as nat) == 2048);
            assert(pow2(SIZE_CLASSES_TABLE[28].2 as nat) == 512);
        }
        assert(spec_row_ok(28));
        assert(spec_row_block_size(SIZE_CLASSES_TABLE[29]) == 3072) by {
            assert(pow2(SIZE_CLASSES_TABLE[29].1 as nat) == 2048);
            assert(pow2(SIZE_CLASSES_TABLE[29].2 as nat) == 512);
        }
        assert(spec_row_ok(29));
        assert(spec_row_block_size(SIZE_CLASSES_TABLE[30]) == 3584) by {
            assert(pow2(SIZE_CLASSES_TABLE[30].1 as nat) == 2048);
            assert(pow2(SIZE_CLASSES_TABLE[30].2 as nat) == 512);
        }
        assert(spec_row_ok(30));
        assert(spec_row_block_size(SIZE_CLASSES_TABLE[31]) == 4096) by {
            assert(pow2(SIZE_CLASSES_TABLE[31].1 as nat) == 2048);
            assert(pow2(SIZE_CLASSES_TABLE[31].2 as nat) == 512);
        }
        assert(spec_row_ok(31));
        assert(spec_row_block_size(SIZE_CLASSES_TABLE[32]) == 5120) by {
            assert(pow2(SIZE_CLASSES_TABLE[32].1 as nat) == 4096);
            assert(pow2(SIZE_CLASSES_TABLE[32].2 as nat) == 1024);
        }
        assert(spec_row_ok(32));
        assert(spec_row_block_size(SIZE_CLASSES_TABLE[33]) == 6144) by {
            assert(pow2(SIZE_CLASSES_TABLE[33].1 as nat) == 4096);
            assert(pow2(SIZE_CLASSES_TABLE[33].2 as nat) == 1024);
        }
        assert(spec_row_ok(33));
        assert(spec_row_block_size(SIZE_CLASSES_TABLE[34]) == 7168) by {
            assert(pow2(SIZE_CLASSES_TABLE[34].1 as nat) == 4096);
            assert(pow2(SIZE_CLASSES_TABLE[34].2 as nat) == 1024);
        }
        assert(spec_row_ok(34));
        assert(spec_row_block_size(SIZE_CLASSES_TABLE[35]) == 8192) by {
            assert(pow2(SIZE_CLASSES_TABLE[35].1 as nat) == 4096);
            assert(pow2(SIZE_CLASSES_TABLE[35].2 as nat) == 1024);
        }
        assert(spec_row_ok(35));
        assert(spec_row_block_size(SIZE_CLASSES_TABLE[36]) == 10240) by {
            assert(pow2(SIZE_CLASSES_TABLE[36].1 as nat) == 8192);
            assert(pow2(SIZE_CLASSES_TABLE[36].2 as nat) == 2048);
        }
        assert(spec_row_ok(36));
        assert(spec_row_block_size(SIZE_CLASSES_TABLE[37]) == 12288) by {
            assert(pow2(SIZE_CLASSES_TABLE[37].1 as nat) == 8192);
            assert(pow2(SIZE_CLASSES_TABLE[37].2 as nat) == 2048);
        }
        assert(spec_row_ok(37));
        assert(spec_row_block_size(SIZE_CLASSES_TABLE[38]) == 14336) by {
            assert(pow2(SIZE_CLASSES_TABLE[38].1 as nat) == 8192);
            assert(pow2(SIZE_CLASSES_TABLE[38].2 as nat) == 2048);
        }
        assert(spec_row_ok(38));
    }
}

/// Block sizes rise along the schedule.
pub proof fn lemma_schedule_rising(i: int, j: int)
    requires
        0 <= i < j < MAX_SZ_IDX - 1,
    ensures
        spec_row_block_size(SIZE_CLASSES_TABLE[i]) < spec_row_block_size(SIZE_CLASSES_TABLE[j]),
    decreases j - i,
{
    lemma_schedule();
    assert(spec_row_ok(j));
    if i + 1 < j {
        lemma_schedule_rising(i, j - 1);
    }
}

/// The classes as the schedule gives them: entry 0 is unused, entry `i` is
/// taken from row `i - 1`.
pub fn size_classes() -> (r: [SizeClassData; 40])
    ensures
        forall|i: int|
            1 <= i < MAX_SZ_IDX ==> {
                &&& (#[trigger] r[i]).spec_get_block_size() == spec_row_block_size(
                    SIZE_CLASSES_TABLE[i - 1],
                )
                &&& r[i].spec_get_sb_size() == SIZE_CLASSES_TABLE[i - 1].6 * 4096
                &&& r[i].spec_get_block_num() == 0
                &&& r[i].spec_get_cache_block_num() == 0
            },
{
    let mut size_classes: [SizeClassData; 40] = [SizeClassData {
        block_size: 0,
        sb_size: 0,
        block_num: 0,
        cache_block_num: 0,
    }; 40];
    let mut i: usize = 1;
    let mut j: usize = 0;
    proof {
        lemma_schedule();
    }
    while i < MAX_SZ_IDX
        invariant
            1 <= i <= MAX_SZ_IDX,
            j == i - 1,
            forall|k: int| 0 <= k < MAX_SZ_IDX - 1 ==> spec_row_ok(k),
            forall|k: int|
                1 <= k < i ==> {
                    &&& (#[trigger] size_classes[k]).spec_get_block_size() == spec_row_block_size(
                        SIZE_CLASSES_TABLE[k - 1],
                    )
                    &&& size_classes[k].spec_get_sb_size() == SIZE_CLASSES_TABLE[k - 1].6 * 4096
                    &&& size_classes[k].spec_get_block_num() == 0
                    &&& size_classes[k].spec_get_cache_block_num() == 0
                },
        decreases MAX_SZ_IDX - i,
    {
        assert(spec_row_ok(j as int));
        match size_class_filter_init(&SIZE_CLASSES_TABLE[j]) {
            Some(sc) => {
                size_classes[i] = sc;
                i += 1
            },
            None => (),
        };
        j += 1;
    }
    size_classes
}

/// The size classes, ready for use: for each class its block size, the size
/// and the number of blocks of its superblocks and the capacity of a thread's
/// cache, and for each small size the class that serves it.
pub struct SizeClassTable {
    classes: [SizeClassData; 40],
    lookup: Vec<usize>,
}

impl SizeClassTable {
    /// Class `i`.
    pub closed spec fn class(&self, i: int) -> SizeClassData {
        self.classes[i]
    }

    /// The class that serves `size`.
    pub closed spec fn spec_get_size_class(&self, size: usize) -> usize {
        self.lookup@[size as int]
    }

    /// The lookup table has an entry for each small size.
    pub closed spec fn covers_small_sizes(&self) -> bool {
        self.lookup@.len() == MAX_SZ + 1
    }

    /// Whether class `c` is what the schedule makes of row `c - 1`: the
    /// row's block size, and the least multiple of the row's pages that
    /// reaches the least superblock size, cut into blocks.
    pub open spec fn class_follows_schedule(&self, c: int) -> bool {
        let row = SIZE_CLASSES_TABLE[c - 1];
        let sc = self.class(c);
        &&& sc.wf()
        &&& sc.spec_get_block_size() == spec_row_block_size(row)
        &&& sc.spec_get_sb_size() as int % (row.6 * 4096) == 0
        &&& sc.spec_get_sb_size() - row.6 * 4096 < MIN_SB_SIZE
    }

    /// Whether `c` is the class with the least block size that holds `size`.
    pub open spec fn is_least_class_for(&self, c: int, size: int) -> bool {
        &&& 1 <= c < MAX_SZ_IDX
        &&& size <= self.class(c).spec_get_block_size()
        &&& c > 1 ==> self.class(c - 1).spec_get_block_size() < size
    }

    /// The table is the one that the schedule determines.
    pub open spec fn wf(&self) -> bool {
        &&& self.covers_small_sizes()
        &&& forall|c: int| 1 <= c < MAX_SZ_IDX ==> #[trigger] self.class_follows_schedule(c)
        &&& forall|size: usize|
            size <= MAX_SZ ==> self.is_least_class_for(
                #[trigger] self.spec_get_size_class(size) as int,
                size as int,
            )
    }

    /// In a well-formed table block sizes rise with the class index, from 8
    /// to `MAX_SZ`.
    pub proof fn lemma_rising(&self, i: int, j: int)
        requires
            self.wf(),
            1 <= i < j < MAX_SZ_IDX,
        ensures
            self.class(i).spec_get_block_size() < self.class(j).spec_get_block_size(),
            self.class(1).spec_get_block_size() == 8,
            self.class(MAX_SZ_IDX - 1).spec_get_block_size() == MAX_SZ,
    {
        lemma_schedule();
        lemma_schedule_rising(i - 1, j - 1);
        assert(self.class_follows_schedule(i));
        assert(self.class_follows_schedule(j));
        assert(self.class_follows_schedule(1));
        assert(self.class_follows_schedule(MAX_SZ_IDX - 1));
    }

    /// Class `sc_idx`.
    pub fn get(&self, sc_idx: usize) -> (r: SizeClassData)
        requires
            sc_idx < MAX_SZ_IDX,
        ensures
            r == self.class(sc_idx as int),
    {
        self.classes[sc_idx]
    }

    /// The class that serves `size`.
    #[verifier::when_used_as_spec(spec_get_size_class)]
    pub fn get_size_class(&self, size: usize) -> (r: usize)
        requires
            self.wf(),
            size <= MAX_SZ,
        ensures
            r == self.spec_get_size_class(size),
            self.is_least_class_for(r as int, size as int),
    {
        assert(self.is_least_class_for(self.spec_get_size_class(size) as int, size as int));
        self.lookup[size]
    }

    /// The index, within the superblock at `superblock`, of the block of
    /// class `sc_idx` at `block`.
    pub fn compute_idx(&self, superblock: usize, block: usize, sc_idx: usize) -> (r: u32)
        requires
            self.wf(),
            1 <= sc_idx < MAX_SZ_IDX,
            superblock <= block,
            block - superblock < self.class(sc_idx as int).spec_get_sb_size(),
        ensures
            r == (block - superblock) / (self.class(sc_idx as int).spec_get_block_size() as int),
            r < self.class(sc_idx as int).spec_get_block_num(),
    {
        assert(self.class_follows_schedule(sc_idx as int));
        let sc = self.classes[sc_idx];
        let diff: usize = block - superblock;
        let bs: usize = sc.block_size as usize;
        let idx: usize = diff / bs;
        proof {
            let n = sc.block_num as int;
            assert(idx < n) by (nonlinear_arith)
                requires
                    diff < n * bs,
                    bs > 0,
                    idx == diff / bs,
            ;
        }
        idx as u32
    }
}

/// Grows the superblock of a class, in whole multiples of the size that the
/// schedule gives it, until it reaches the least superblock size, and fills
/// in the block counts.
fn fill_counts(sc: SizeClassData) -> (r: SizeClassData)
    requires
        sc.spec_get_block_size() >= 8,
        sc.spec_get_block_size() % 8 == 0,
        0 < sc.spec_get_sb_size() <= 28672,
        sc.spec_get_sb_size() % 4096 == 0,
        sc.spec_get_sb_size() % sc.spec_get_block_size() == 0,
    ensures
        r.wf(),
        r.spec_get_block_size() == sc.spec_get_block_size(),
        r.spec_get_sb_size() % sc.spec_get_sb_size() == 0,
        r.spec_get_sb_size() - sc.spec_get_sb_size() < MIN_SB_SIZE,
{
    let mut sc = sc;
    let step: u32 = sc.sb_size;
    let bs: u32 = sc.block_size;
    let ghost q: int = step as int / bs as int;
    let ghost p: int = step as int / 4096;
    let ghost mut k: int = 1;
    proof {
        vstd::arithmetic::div_mod::lemma_fundamental_div_mod(step as int, bs as int);
        vstd::arithmetic::div_mod::lemma_fundamental_div_mod(step as int, 4096);
        assert(step == q * bs) by (nonlinear_arith)
            requires
                step == bs * q + 0,
        ;
    }
    let mut sb_size: u32 = step;
    while sb_size < MIN_SB_SIZE
        invariant
            0 < step <= 28672,
            k >= 1,
            sb_size == k * step,
            sb_size - step < MIN_SB_SIZE,
        decreases MIN_SB_SIZE + step - sb_size,
    {
        proof {
            assert((k + 1) * step == k * step + step) by (nonlinear_arith);
            k = k + 1;
        }
        sb_size = sb_size + step;
    }
    sc.sb_size = sb_size;
    sc.block_num = sc.sb_size / sc.block_size;
    sc.cache_block_num = sc.block_num * 1;
    proof {
        assert(sb_size == (k * q) * bs) by (nonlinear_arith)
            requires
                sb_size == k * step,
                step == q * bs,
        ;
        assert(sb_size == (k * p) * 4096) by (nonlinear_arith)
            requires
                sb_size == k * step,
                step == 4096 * p,
        ;
        vstd::arithmetic::div_mod::lemma_div_by_multiple(k * q, bs as int);
        vstd::arithmetic::div_mod::lemma_mod_multiples_basic(k, step as int);
        vstd::arithmetic::div_mod::lemma_mod_multiples_basic(k * p, 4096);
        assert(sc.block_num == k * q);
        assert(k * q > 0 && k * q <= sb_size) by (nonlinear_arith)
            requires
                sb_size == (k * q) * bs,
                sb_size >= 65536,
                bs > 0,
        ;
    }
    sc
}

/// Builds the table from the schedule.
pub fn init_size_class() -> (r: SizeClassTable)
    ensures
        r.wf(),
{
    let mut classes = size_classes();
    proof {
        lemma_schedule();
    }
    let mut sc_idx: usize = 1;
    while sc_idx < MAX_SZ_IDX
        invariant
            1 <= sc_idx <= MAX_SZ_IDX,
            forall|k: int| 0 <= k < MAX_SZ_IDX - 1 ==> spec_row_ok(k),
            forall|c: int|
                1 <= c < sc_idx ==> {
                    let row = SIZE_CLASSES_TABLE[c - 1];
                    &&& (#[trigger] classes[c]).wf()
                    &&& classes[c].spec_get_block_size() == spec_row_block_size(row)
                    &&& classes[c].spec_get_sb_size() as int % (row.6 * 4096) == 0
                    &&& classes[c].spec_get_sb_size() - row.6 * 4096 < MIN_SB_SIZE
                },
            forall|c: int|
                sc_idx <= c < MAX_SZ_IDX ==> {
                    &&& (#[trigger] classes[c]).spec_get_block_size() == spec_row_block_size(
                        SIZE_CLASSES_TABLE[c - 1],
                    )
                    &&& classes[c].spec_get_sb_size() == SIZE_CLASSES_TABLE[c - 1].6 * 4096
                },
        decreases MAX_SZ_IDX - sc_idx,
    {
        assert(spec_row_ok(sc_idx - 1));
        let sc = fill_counts(classes[sc_idx]);
        classes[sc_idx] = sc;
        sc_idx += 1;
    }
    // each small size is served by the least class that holds it
    let mut lookup: Vec<usize> = Vec::new();
    let mut sc_idx: usize = 1;
    while sc_idx < MAX_SZ_IDX
        invariant
            1 <= sc_idx <= MAX_SZ_IDX,
            forall|k: int| 0 <= k < MAX_SZ_IDX - 1 ==> spec_row_ok(k),
            forall|c: int|
                1 <= c < MAX_SZ_IDX ==> (#[trigger] classes[c]).spec_get_block_size()
                    == spec_row_block_size(SIZE_CLASSES_TABLE[c - 1]),
            sc_idx == 1 ==> lookup@.len() == 0,
            sc_idx > 1 ==> lookup@.len() == classes[sc_idx - 1].spec_get_block_size() + 1,
            forall|s: int|
                0 <= s < lookup@.len() ==> {
                    let c = #[trigger] lookup@[s] as int;
                    &&& 1 <= c < MAX_SZ_IDX
                    &&& s <= classes[c].spec_get_block_size()
                    &&& c > 1 ==> classes[c - 1].spec_get_block_size() < s
                },
        decreases MAX_SZ_IDX - sc_idx,
    {
        assert(spec_row_ok(sc_idx - 1));
        let sc = classes[sc_idx];
        let limit: usize = sc.block_size as usize;
        while lookup.len() <= limit
            invariant
                1 <= sc_idx < MAX_SZ_IDX,
                limit == classes[sc_idx as int].spec_get_block_size(),
                limit <= MAX_SZ,
                sc_idx == 1 ==> lookup@.len() <= limit + 1,
                sc_idx > 1 ==> classes[sc_idx - 1].spec_get_block_size() + 1 <= lookup@.len()
                    <= limit + 1,
                forall|s: int|
                    0 <= s < lookup@.len() ==> {
                        let c = #[trigger] lookup@[s] as int;
                        &&& 1 <= c < MAX_SZ_IDX
                        &&& s <= classes[c].spec_get_block_size()
                        &&& c > 1 ==> classes[c - 1].spec_get_block_size() < s
                    },
            decreases limit + 1 - lookup@.len(),
        {
            lookup.push(sc_idx);
        }
        sc_idx += 1;
    }
    let r = SizeClassTable { classes, lookup };
    proof {
        assert(spec_row_ok(MAX_SZ_IDX - 2));
        assert forall|c: int| 1 <= c < MAX_SZ_IDX implies #[trigger] r.class_follows_schedule(
            c,
        ) by {
            assert(classes[c].wf());
        }
        assert forall|size: usize| size <= MAX_SZ implies r.is_least_class_for(
            #[trigger] r.spec_get_size_class(size) as int,
            size as int,
        ) by {
            let c = lookup@[size as int] as int;
        }
    }
    r
}

} // verus!
