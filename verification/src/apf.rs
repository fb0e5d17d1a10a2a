//! The footprint predictor: per thread and size class, a sample of how long
//! freed blocks stay free before they are allocated again, and from it an
//! estimate of how many blocks the thread needs to keep.

use vstd::prelude::*;
use crate::bits::{field_get, field_set, get_field, set_field};

verus! {

/// Ticks after which the predictor starts a new window.
pub const BOOST_LENGTH: u32 = 20000;

/// The events that should lie between two fetches of one size class.
pub const TARGET_APF: u32 = 1000;

/// How far below a window length the memo is searched.
pub const REUSE_COMPUTE_INTERVAL: u32 = 10;

/// The number of reuse intervals that are kept.
pub const NUM_FREE_INTERVALS: u32 = 250;

/// The mask of a memo field: 21 bits.
pub const XYZ_FIELD_MASK: u64 = 0x1F_FFFF;

/// The modulus of a memo field.
pub const XYZ_FIELD_MOD: u64 = 0x20_0000;

/// A memo entry in one word: a flag that says whether it was filled in, and
/// three partial sums, cut to 21 bits each.
#[derive(Clone, Copy, Debug, PartialEq, Eq, Structural)]
pub struct Xyz {
    xyz: u64,
}

impl Xyz {
    /// The packed word.
    pub closed spec fn word(&self) -> u64 {
        self.xyz
    }

    /// The packed word.
    #[verifier::when_used_as_spec(word)]
    pub fn to_bits(&self) -> (r: u64)
        ensures
            r == self.word(),
    {
        self.xyz
    }

    /// Whether the entry was filled in.
    pub closed spec fn spec_init(&self) -> bool {
        field_get(self.xyz, 0, 1) == 1
    }

    /// The first sum.
    pub closed spec fn spec_x(&self) -> u32 {
        field_get(self.xyz, 1, 0x1F_FFFF) as u32
    }

    /// The second sum.
    pub closed spec fn spec_y(&self) -> u32 {
        field_get(self.xyz, 22, 0x1F_FFFF) as u32
    }

    /// The third sum.
    pub closed spec fn spec_z(&self) -> u32 {
        field_get(self.xyz, 43, 0x1F_FFFF) as u32
    }

    /// The sums are within their width.
    pub broadcast proof fn lemma_ranges(self)
        ensures
            #![trigger self.spec_x()]
            #![trigger self.spec_y()]
            #![trigger self.spec_z()]
            self.spec_x() <= 0x1F_FFFF,
            self.spec_y() <= 0x1F_FFFF,
            self.spec_z() <= 0x1F_FFFF,
    {
        lemma_xyz_bounds(self.xyz);
    }

    /// The entry that was not filled in, with sums 0.
    pub closed spec fn spec_new() -> Xyz {
        Xyz { xyz: 0 }
    }

    /// The empty entry is not filled in.
    pub proof fn lemma_new()
        ensures
            !Xyz::spec_new().spec_init(),
    {
        lemma_xyz_bounds(0);
    }

    /// The entry that was not filled in, with sums 0.
    #[verifier::when_used_as_spec(spec_new)]
    pub fn new() -> (r: Xyz)
        ensures
            r == Xyz::spec_new(),
            !r.spec_init(),
            r.spec_x() == 0,
            r.spec_y() == 0,
            r.spec_z() == 0,
    {
        proof {
            lemma_xyz_bounds(0);
        }
        Xyz { xyz: 0 }
    }

    /// The filled-in entry with the low 21 bits of each of `x`, `y`, `z`.
    pub closed spec fn spec_packed(x: u32, y: u32, z: u32) -> Xyz {
        Xyz {
            xyz: field_set(
                field_set(field_set(field_set(0, 0, 1, 1), 1, 0x1F_FFFF, x as u64), 22, 0x1F_FFFF, y as u64),
                43,
                0x1F_FFFF,
                z as u64,
            ),
        }
    }

    /// A packed entry is filled in and holds the low 21 bits of each sum.
    pub proof fn lemma_packed(x: u32, y: u32, z: u32)
        ensures
            Xyz::spec_packed(x, y, z).spec_init(),
            Xyz::spec_packed(x, y, z).spec_x() == x % 0x20_0000,
            Xyz::spec_packed(x, y, z).spec_y() == y % 0x20_0000,
            Xyz::spec_packed(x, y, z).spec_z() == z % 0x20_0000,
    {
        let w0 = field_set(0, 0, 1, 1);
        let w1 = field_set(w0, 1, 0x1F_FFFF, x as u64);
        let w2 = field_set(w1, 22, 0x1F_FFFF, y as u64);
        lemma_store_init(0, 1);
        lemma_store_x(w0, x);
        lemma_store_y(w1, y);
        lemma_store_z(w2, z);
    }

    /// The filled-in entry with the low 21 bits of each of `x`, `y`, `z`.
    pub fn packed(x: u32, y: u32, z: u32) -> (r: Xyz)
        ensures
            r == Xyz::spec_packed(x, y, z),
    {
        let w0: u64 = set_field(0, 0, 1, 1);
        let w1: u64 = set_field(w0, 1, XYZ_FIELD_MASK, x as u64);
        let w2: u64 = set_field(w1, 22, XYZ_FIELD_MASK, y as u64);
        let w3: u64 = set_field(w2, 43, XYZ_FIELD_MASK, z as u64);
        Xyz { xyz: w3 }
    }

    /// Whether the entry was filled in.
    #[verifier::when_used_as_spec(spec_init)]
    pub fn init(&self) -> (r: bool)
        ensures
            r == self.spec_init(),
    {
        get_field(self.xyz, 0, 1) == 1
    }

    /// The first sum.
    #[verifier::when_used_as_spec(spec_x)]
    pub fn x(&self) -> (r: u32)
        ensures
            r == self.spec_x(),
    {
        get_field(self.xyz, 1, XYZ_FIELD_MASK) as u32
    }

    /// The second sum.
    #[verifier::when_used_as_spec(spec_y)]
    pub fn y(&self) -> (r: u32)
        ensures
            r == self.spec_y(),
    {
        get_field(self.xyz, 22, XYZ_FIELD_MASK) as u32
    }

    /// The third sum.
    #[verifier::when_used_as_spec(spec_z)]
    pub fn z(&self) -> (r: u32)
        ensures
            r == self.spec_z(),
    {
        get_field(self.xyz, 43, XYZ_FIELD_MASK) as u32
    }

    /// Sets the flag.
    pub fn set_init(&mut self, init: bool)
        ensures
            final(self).spec_init() == init,
            final(self).spec_x() == old(self).spec_x(),
            final(self).spec_y() == old(self).spec_y(),
            final(self).spec_z() == old(self).spec_z(),
    {
        let v: u64 = if init {
            1
        } else {
            0
        };
        proof {
            lemma_store_init(self.xyz, v);
        }
        self.xyz = set_field(self.xyz, 0, 1, v);
    }

    /// Stores the low 21 bits of `x`.
    pub fn set_x(&mut self, x: u32)
        ensures
            final(self).spec_x() == x % 0x20_0000,
            final(self).spec_init() == old(self).spec_init(),
            final(self).spec_y() == old(self).spec_y(),
            final(self).spec_z() == old(self).spec_z(),
    {
        proof {
            lemma_store_x(self.xyz, x);
        }
        self.xyz = set_field(self.xyz, 1, XYZ_FIELD_MASK, x as u64);
    }

    /// Stores the low 21 bits of `y`.
    pub fn set_y(&mut self, y: u32)
        ensures
            final(self).spec_y() == y % 0x20_0000,
            final(self).spec_init() == old(self).spec_init(),
            final(self).spec_x() == old(self).spec_x(),
            final(self).spec_z() == old(self).spec_z(),
    {
        proof {
            lemma_store_y(self.xyz, y);
        }
        self.xyz = set_field(self.xyz, 22, XYZ_FIELD_MASK, y as u64);
    }

    /// Stores the low 21 bits of `z`.
    pub fn set_z(&mut self, z: u32)
        ensures
            final(self).spec_z() == z % 0x20_0000,
            final(self).spec_init() == old(self).spec_init(),
            final(self).spec_x() == old(self).spec_x(),
            final(self).spec_y() == old(self).spec_y(),
    {
        proof {
            lemma_store_z(self.xyz, z);
        }
        self.xyz = set_field(self.xyz, 43, XYZ_FIELD_MASK, z as u64);
    }
}

/// The sums of a memo word are within their width, and those of the zero
/// word are zero.
proof fn lemma_xyz_bounds(w: u64)
    by (bit_vector)
    ensures
        field_get(w, 1, 0x1F_FFFF) <= 0x1F_FFFF,
        field_get(w, 22, 0x1F_FFFF) <= 0x1F_FFFF,
        field_get(w, 43, 0x1F_FFFF) <= 0x1F_FFFF,
        w == 0 ==> field_get(w, 0, 1) == 0 && field_get(w, 1, 0x1F_FFFF) == 0 && field_get(
            w,
            22,
            0x1F_FFFF,
        ) == 0 && field_get(w, 43, 0x1F_FFFF) == 0,
{
}

/// Storing the flag changes it alone.
proof fn lemma_store_init(w: u64, v: u64)
    by (bit_vector)
    requires
        v <= 1,
    ensures
        field_get(field_set(w, 0, 1, v), 0, 1) == v,
        field_get(field_set(w, 0, 1, v), 1, 0x1F_FFFF) == field_get(w, 1, 0x1F_FFFF),
        field_get(field_set(w, 0, 1, v), 22, 0x1F_FFFF) == field_get(w, 22, 0x1F_FFFF),
        field_get(field_set(w, 0, 1, v), 43, 0x1F_FFFF) == field_get(w, 43, 0x1F_FFFF),
{
}

/// Storing the first sum changes it alone.
proof fn lemma_store_x(w: u64, v: u32)
    by (bit_vector)
    ensures
        field_get(field_set(w, 1, 0x1F_FFFF, v as u64), 1, 0x1F_FFFF) == (v % 0x20_0000) as u64,
        field_get(field_set(w, 1, 0x1F_FFFF, v as u64), 0, 1) == field_get(w, 0, 1),
        field_get(field_set(w, 1, 0x1F_FFFF, v as u64), 22, 0x1F_FFFF) == field_get(
            w,
            22,
            0x1F_FFFF,
        ),
        field_get(field_set(w, 1, 0x1F_FFFF, v as u64), 43, 0x1F_FFFF) == field_get(
            w,
            43,
            0x1F_FFFF,
        ),
{
}

/// Storing the second sum changes it alone.
proof fn lemma_store_y(w: u64, v: u32)
    by (bit_vector)
    ensures
        field_get(field_set(w, 22, 0x1F_FFFF, v as u64), 22, 0x1F_FFFF) == (v % 0x20_0000) as u64,
        field_get(field_set(w, 22, 0x1F_FFFF, v as u64), 0, 1) == field_get(w, 0, 1),
        field_get(field_set(w, 22, 0x1F_FFFF, v as u64), 1, 0x1F_FFFF) == field_get(
            w,
            1,
            0x1F_FFFF,
        ),
        field_get(field_set(w, 22, 0x1F_FFFF, v as u64), 43, 0x1F_FFFF) == field_get(
            w,
            43,
            0x1F_FFFF,
        ),
{
}

/// Storing the third sum changes it alone.
proof fn lemma_store_z(w: u64, v: u32)
    by (bit_vector)
    ensures
        field_get(field_set(w, 43, 0x1F_FFFF, v as u64), 43, 0x1F_FFFF) == (v % 0x20_0000) as u64,
        field_get(field_set(w, 43, 0x1F_FFFF, v as u64), 0, 1) == field_get(w, 0, 1),
        field_get(field_set(w, 43, 0x1F_FFFF, v as u64), 1, 0x1F_FFFF) == field_get(
            w,
            1,
            0x1F_FFFF,
        ),
        field_get(field_set(w, 43, 0x1F_FFFF, v as u64), 22, 0x1F_FFFF) == field_get(
            w,
            22,
            0x1F_FFFF,
        ),
{
}

/// What a predictor's sample holds, as plain values.
pub struct ReuseView {
    /// Ticks since the window began.
    pub current_time: u32,
    /// The ring slot of the next interval to complete.
    pub num_intervals: u32,
    /// The ring of reuse intervals: for each, when the block was freed and
    /// when a block was next allocated.
    pub free_intervals: Seq<(u32, u32)>,
    /// The memo of sums, by window length.
    pub all_reuses: Seq<Xyz>,
    /// One more than the greatest window length whose memo entry may be
    /// filled in.
    pub memo_top: u32,
    /// Windows sampled since the last pause, 0 or 1.
    pub boost_count: u32,
    /// Whether sampling is paused for this window.
    pub is_hibernating: bool,
    /// The ring slot of the next free.
    pub num_frees: u32,
    /// Allocations and frees recorded since the window began.
    pub num_events: u64,
}

/// The three sums from which reuse is computed.
pub struct Sums {
    /// The sum of the capped free times.
    pub x: int,
    /// The sum of the raised allocation times.
    pub y: int,
    /// The sum of the window lengths.
    pub z: int,
}

/// A quotient of two integers, kept exact.
#[derive(Clone, Copy, Debug, PartialEq, Eq, Structural)]
pub struct Ratio {
    /// The numerator.
    pub num: i64,
    /// The denominator; it may be zero or negative.
    pub den: i128,
}

/// Whether an interval is complete and shorter than `wl`.
pub open spec fn spec_qualifies(iv: (u32, u32), wl: int) -> bool {
    iv.1 >= iv.0 && iv.1 - iv.0 < wl
}

/// The lesser of two integers.
pub open spec fn spec_min(a: int, b: int) -> int {
    if a <= b {
        a
    } else {
        b
    }
}

/// The greater of two integers.
pub open spec fn spec_max(a: int, b: int) -> int {
    if a >= b {
        a
    } else {
        b
    }
}

/// What one interval adds to the sums of window length `wl`, after
/// `num_events` events.
pub open spec fn spec_slow_term(iv: (u32, u32), num_events: int, wl: int) -> Sums {
    if spec_qualifies(iv, wl) {
        Sums { x: spec_min(num_events - wl, iv.0 as int), y: spec_max(wl, iv.1 as int), z: wl }
    } else {
        Sums { x: 0, y: 0, z: 0 }
    }
}

/// The sums of window length `wl` over the first `n` intervals.
pub open spec fn spec_slow_sums(ivs: Seq<(u32, u32)>, n: int, num_events: int, wl: int) -> Sums
    decreases n,
{
    if n <= 0 {
        Sums { x: 0, y: 0, z: 0 }
    } else {
        let rest = spec_slow_sums(ivs, n - 1, num_events, wl);
        let t = spec_slow_term(ivs[n - 1], num_events, wl);
        Sums { x: rest.x + t.x, y: rest.y + t.y, z: rest.z + t.z }
    }
}

/// What one interval adds when the sums of window length `r - 1` are turned
/// into those of window length `r`. An interval of length `r - 1` enters
/// with its whole term. One that is shorter was counted before: its capped
/// free time goes down by one if it was freed in the last `r - 1` events,
/// its raised allocation time goes up by one if it was allocated before time
/// `r`, and its window length goes up by one.
pub open spec fn spec_fast_term(iv: (u32, u32), num_events: int, r: int) -> Sums {
    if iv.1 >= iv.0 && iv.1 - iv.0 + 1 == r {
        Sums { x: spec_min(num_events - r, iv.0 as int), y: spec_max(r, iv.1 as int), z: r }
    } else if iv.1 >= iv.0 && iv.1 - iv.0 < r - 1 {
        Sums {
            x: if iv.0 >= num_events - r + 1 {
                -1
            } else {
                0
            },
            y: if iv.1 <= r - 1 {
                1
            } else {
                0
            },
            z: 1,
        }
    } else {
        Sums { x: 0, y: 0, z: 0 }
    }
}

/// The corrections of the first `n` intervals, added to `base`.
pub open spec fn spec_fast_sums(
    base: Sums,
    ivs: Seq<(u32, u32)>,
    n: int,
    num_events: int,
    r: int,
) -> Sums
    decreases n,
{
    if n <= 0 {
        base
    } else {
        let rest = spec_fast_sums(base, ivs, n - 1, num_events, r);
        let t = spec_fast_term(ivs[n - 1], num_events, r);
        Sums { x: rest.x + t.x, y: rest.y + t.y, z: rest.z + t.z }
    }
}

/// The term of an interval for window length `r` is its term for `r - 1`
/// and its correction.
pub proof fn lemma_term_step(iv: (u32, u32), num_events: int, r: int)
    ensures
        spec_slow_term(iv, num_events, r).x == spec_slow_term(iv, num_events, r - 1).x
            + spec_fast_term(iv, num_events, r).x,
        spec_slow_term(iv, num_events, r).y == spec_slow_term(iv, num_events, r - 1).y
            + spec_fast_term(iv, num_events, r).y,
        spec_slow_term(iv, num_events, r).z == spec_slow_term(iv, num_events, r - 1).z
            + spec_fast_term(iv, num_events, r).z,
{
}

/// The corrections add to a base what the direct sums of window length `r`
/// have more than those of `r - 1`.
pub proof fn lemma_corrections(base: Sums, ivs: Seq<(u32, u32)>, n: int, num_events: int, r: int)
    ensures
        spec_fast_sums(base, ivs, n, num_events, r).x == base.x + spec_slow_sums(
            ivs,
            n,
            num_events,
            r,
        ).x - spec_slow_sums(ivs, n, num_events, r - 1).x,
        spec_fast_sums(base, ivs, n, num_events, r).y == base.y + spec_slow_sums(
            ivs,
            n,
            num_events,
            r,
        ).y - spec_slow_sums(ivs, n, num_events, r - 1).y,
        spec_fast_sums(base, ivs, n, num_events, r).z == base.z + spec_slow_sums(
            ivs,
            n,
            num_events,
            r,
        ).z - spec_slow_sums(ivs, n, num_events, r - 1).z,
    decreases n,
{
    if n > 0 {
        lemma_corrections(base, ivs, n - 1, num_events, r);
        lemma_term_step(ivs[n - 1], num_events, r);
    }
}

/// Both ways to the sums agree: the direct sums of window length `r - 1`,
/// corrected interval by interval, are the direct sums of window length
/// `r`.
pub proof fn lemma_memo_path_is_direct(ivs: Seq<(u32, u32)>, n: int, num_events: int, r: int)
    ensures
        spec_fast_sums(spec_slow_sums(ivs, n, num_events, r - 1), ivs, n, num_events, r)
            == spec_slow_sums(ivs, n, num_events, r),
{
    lemma_corrections(spec_slow_sums(ivs, n, num_events, r - 1), ivs, n, num_events, r);
}

/// The sums that a memo entry holds.
pub open spec fn spec_memo_sums(e: Xyz) -> Sums {
    Sums { x: e.spec_x() as int, y: e.spec_y() as int, z: e.spec_z() as int }
}

/// Whether each of the sums fits a memo field.
pub open spec fn spec_fits(s: Sums) -> bool {
    0 <= s.x < 0x20_0000 && 0 <= s.y < 0x20_0000 && 0 <= s.z < 0x20_0000
}

/// The reuse of window length `wl` from its sums.
pub open spec fn spec_ratio(s: Sums, num_events: int, wl: int) -> (int, int) {
    (s.x - s.y + s.z, num_events - wl + 1)
}

/// The whole part of `wl - num / den`, at least 0 and at most `usize::MAX`.
/// With a zero denominator the quotient counts as infinite, of the sign of
/// the numerator, or as zero if that is zero too.
pub open spec fn spec_demand(wl: int, num: int, den: int) -> int {
    if den == 0 {
        if num < 0 {
            usize::MAX as int
        } else {
            0
        }
    } else {
        let a = if den > 0 {
            wl * den - num
        } else {
            num - wl * den
        };
        let b = if den > 0 {
            den
        } else {
            -den
        };
        if a < 0 {
            0
        } else if a / b > usize::MAX {
            usize::MAX as int
        } else {
            a / b
        }
    }
}

/// The whole part of `wl - num / den`, at least 0 and at most `usize::MAX`.
pub fn demand_of(wl: u32, ratio: Ratio) -> (r: usize)
    requires
        -0x1_0000_0000_0000_0000 <= ratio.den <= 0x1_0000_0000_0000_0000,
    ensures
        r == spec_demand(wl as int, ratio.num as int, ratio.den as int),
{
    let num: i128 = ratio.num as i128;
    let den: i128 = ratio.den;
    if den == 0 {
        if num < 0 {
            usize::MAX
        } else {
            0
        }
    } else {
        assert(-0x1_0000_0000_0000_0000_0000_0000 <= wl * den <= 0x1_0000_0000_0000_0000_0000_0000)
            by (nonlinear_arith)
            requires
                0 <= wl <= 0xFFFF_FFFF,
                -0x1_0000_0000_0000_0000 <= den <= 0x1_0000_0000_0000_0000,
        ;
        let wd: i128 = (wl as i128) * den;
        let a: i128 = if den > 0 {
            wd - num
        } else {
            num - wd
        };
        let b: i128 = if den > 0 {
            den
        } else {
            -den
        };
        if a < 0 {
            0
        } else {
            let q: u128 = (a as u128) / (b as u128);
            if q > usize::MAX as u128 {
                usize::MAX
            } else {
                q as usize
            }
        }
    }
}

/// One thread's sample for one size class.
#[derive(Debug)]
pub struct Reuse {
    current_time: u32,
    num_intervals: u32,
    free_intervals: Vec<(u32, u32)>,
    all_reuses: Vec<Xyz>,
    memo_top: u32,
    boost_count: u32,
    is_hibernating: bool,
    num_frees: u32,
    num_events: u64,
}

impl View for Reuse {
    type V = ReuseView;

    closed spec fn view(&self) -> ReuseView {
        ReuseView {
            current_time: self.current_time,
            num_intervals: self.num_intervals,
            free_intervals: self.free_intervals@,
            all_reuses: self.all_reuses@,
            memo_top: self.memo_top,
            boost_count: self.boost_count,
            is_hibernating: self.is_hibernating,
            num_frees: self.num_frees,
            num_events: self.num_events,
        }
    }
}

impl ReuseView {
    /// The sums of window length `wl` over the recorded intervals.
    pub open spec fn slow_sums(&self, wl: int) -> Sums {
        spec_slow_sums(self.free_intervals, self.num_intervals as int, self.num_events as int, wl)
    }

    /// The sums of window length `wl`. The memo path and the direct sum
    /// give the same: see `lemma_fast_is_slow`.
    pub open spec fn sums(&self, wl: int) -> Sums {
        self.slow_sums(wl)
    }

    /// What holds of the memo entry of window length `r`: above the top it
    /// is empty, and if it is filled in, it holds the sums of that window
    /// length, which fit it.
    pub open spec fn memo_ok(&self, r: int) -> bool {
        let e = self.all_reuses[r];
        &&& r >= self.memo_top ==> e == Xyz::spec_new()
        &&& e.spec_init() ==> spec_fits(self.slow_sums(r)) && e == spec_pack(self.slow_sums(r))
    }

    /// The rings are in place, the counters are within them, and the memo
    /// holds nothing but sums of the sample as it is.
    pub open spec fn wf(&self) -> bool {
        &&& self.free_intervals.len() == NUM_FREE_INTERVALS + 1
        &&& self.all_reuses.len() == TARGET_APF
        &&& self.num_intervals < NUM_FREE_INTERVALS
        &&& self.num_frees < NUM_FREE_INTERVALS
        &&& self.current_time < BOOST_LENGTH
        &&& self.boost_count <= 1
        &&& self.memo_top <= TARGET_APF
        &&& forall|r: int| 0 <= r < TARGET_APF ==> #[trigger] self.memo_ok(r)
    }

    /// The sample at the start of a window: no interval and no event.
    pub open spec fn is_reset(&self) -> bool {
        &&& self.current_time == 0
        &&& self.num_intervals == 0
        &&& self.num_frees == 0
        &&& self.num_events == 0
        &&& forall|i: int|
            0 <= i < self.free_intervals.len() ==> #[trigger] self.free_intervals[i] == (
                0u32,
                0u32,
            )
    }

    /// The sample with an empty memo.
    pub open spec fn cleared(&self) -> ReuseView {
        ReuseView {
            all_reuses: Seq::new(self.all_reuses.len(), |i: int| Xyz::spec_new()),
            memo_top: 0,
            ..*self
        }
    }

    /// The sample after an allocation. The memo is emptied, as the sums
    /// change.
    pub open spec fn after_allocation(&self) -> ReuseView {
        if self.is_hibernating {
            *self
        } else {
            let slot = self.num_intervals as int;
            let pending = self.free_intervals[slot].0 != 0;
            ReuseView {
                free_intervals: if pending {
                    self.free_intervals.update(
                        slot,
                        (self.free_intervals[slot].0, self.current_time),
                    )
                } else {
                    self.free_intervals
                },
                num_intervals: if pending {
                    ((self.num_intervals + 1) % NUM_FREE_INTERVALS as int) as u32
                } else {
                    self.num_intervals
                },
                num_events: spec_bump(self.num_events),
                ..self.cleared()
            }
        }
    }

    /// The sample after a free. The memo is emptied, as the sums change.
    pub open spec fn after_free(&self) -> ReuseView {
        if self.is_hibernating {
            *self
        } else {
            let slot = self.num_frees as int;
            ReuseView {
                free_intervals: self.free_intervals.update(
                    slot,
                    (self.current_time, self.free_intervals[slot].1),
                ),
                num_frees: ((self.num_frees + 1) % NUM_FREE_INTERVALS as int) as u32,
                num_events: spec_bump(self.num_events),
                ..self.cleared()
            }
        }
    }

    /// The sample after a tick. The tick that completes a window starts the
    /// next one, with an empty ring and an empty memo: after two sampled
    /// windows one is skipped.
    pub open spec fn after_tick(&self) -> ReuseView {
        if self.current_time + 1 != BOOST_LENGTH {
            ReuseView { current_time: (self.current_time + 1) as u32, ..*self }
        } else {
            ReuseView {
                current_time: 0,
                num_intervals: 0,
                num_frees: 0,
                num_events: 0,
                free_intervals: Seq::new(self.free_intervals.len(), |i: int| (0u32, 0u32)),
                is_hibernating: if self.is_hibernating {
                    false
                } else {
                    self.boost_count == 1
                },
                boost_count: if self.is_hibernating {
                    0
                } else if self.boost_count == 1 {
                    1
                } else {
                    (self.boost_count + 1) as u32
                },
                ..self.cleared()
            }
        }
    }

    /// The sample with the sums `s` of window length `r` in the memo, if
    /// they fit a memo entry; as it is if they do not.
    pub open spec fn with_memo(&self, r: int, s: Sums) -> ReuseView {
        if spec_fits(s) {
            ReuseView {
                all_reuses: self.all_reuses.update(r, spec_pack(s)),
                memo_top: if self.memo_top > r {
                    self.memo_top
                } else {
                    (r + 1) as u32
                },
                ..*self
            }
        } else {
            *self
        }
    }

    /// The sample after the sums of window length `wl` were computed
    /// directly: a window length below the target leaves them in the memo.
    pub open spec fn after_slow(&self, wl: int) -> ReuseView {
        if wl < TARGET_APF {
            self.with_memo(wl, self.slow_sums(wl))
        } else {
            *self
        }
    }

    /// The greatest window length from `lower` to `upper` whose memo entry
    /// is filled in, or `lower - 1` if there is none.
    pub open spec fn nearest_memo(&self, lower: int, upper: int) -> int
        decreases upper - lower + 1,
    {
        if upper < lower {
            lower - 1
        } else if self.all_reuses[upper].spec_init() {
            upper
        } else {
            self.nearest_memo(lower, upper - 1)
        }
    }

    /// The sample after the sums of the window lengths from `from + 1` to
    /// `to` were left in the memo.
    pub open spec fn filled(&self, from: int, to: int) -> ReuseView
        decreases to - from,
    {
        if to <= from {
            *self
        } else {
            self.filled(from, to - 1).with_memo(to, self.slow_sums(to))
        }
    }

    /// The window length below which the memo is not searched.
    pub open spec fn lower_bound(wl: int) -> int {
        if wl <= REUSE_COMPUTE_INTERVAL {
            0
        } else {
            wl - REUSE_COMPUTE_INTERVAL
        }
    }

    /// The sample after the sums of window length `wl` were computed by way
    /// of the memo: from the nearest filled-in entry below `wl`, or from the
    /// directly computed sums of the lower bound if no entry is in reach,
    /// the sums of every window length up to `wl` were rebuilt and left in
    /// the memo.
    pub open spec fn after_fast(&self, wl: int) -> ReuseView {
        let lower = Self::lower_bound(wl);
        let found = self.nearest_memo(lower, wl - 1);
        if found >= lower {
            self.filled(found, wl)
        } else {
            self.after_slow(lower).filled(lower, wl)
        }
    }

    /// The sums of window length `to`, rebuilt from the sums `base` of window
    /// length `from` by the corrections of each window length in between.
    pub open spec fn rebuilt(&self, base: Sums, from: int, to: int) -> Sums
        decreases to - from,
    {
        if to <= from {
            base
        } else {
            spec_fast_sums(
                self.rebuilt(base, from, to - 1),
                self.free_intervals,
                self.num_intervals as int,
                self.num_events as int,
                to,
            )
        }
    }

    /// The sums of window length `wl` by way of the memo: those of the
    /// nearest filled-in entry below `wl`, or the direct sums of the lower
    /// bound if no entry is in reach, rebuilt up to `wl`.
    pub open spec fn fast_sums(&self, wl: int) -> Sums {
        let lower = Self::lower_bound(wl);
        let found = self.nearest_memo(lower, wl - 1);
        if found >= lower {
            self.rebuilt(spec_memo_sums(self.all_reuses[found]), found, wl)
        } else {
            self.rebuilt(self.slow_sums(lower), lower, wl)
        }
    }

    /// The entry that the search of the memo finds lies in the range that
    /// was searched and is filled in.
    pub proof fn lemma_nearest_memo(&self, lower: int, upper: int)
        ensures
            self.nearest_memo(lower, upper) >= lower ==> self.nearest_memo(lower, upper) <= upper
                && self.all_reuses[self.nearest_memo(lower, upper)].spec_init(),
        decreases upper - lower + 1,
    {
        if upper >= lower && !self.all_reuses[upper].spec_init() {
            self.lemma_nearest_memo(lower, upper - 1);
        }
    }

    /// Rebuilt from the direct sums of one window length, the sums of a
    /// greater one are its direct sums.
    pub proof fn lemma_rebuilt(&self, from: int, to: int)
        ensures
            self.rebuilt(self.slow_sums(from), from, to) == if to <= from {
                self.slow_sums(from)
            } else {
                self.slow_sums(to)
            },
        decreases to - from,
    {
        if to > from {
            self.lemma_rebuilt(from, to - 1);
            lemma_memo_path_is_direct(
                self.free_intervals,
                self.num_intervals as int,
                self.num_events as int,
                to,
            );
        }
    }

    /// The memo path and the direct sum give the same sums, whatever the
    /// memo of a well-formed sample holds: an entry that is filled in holds
    /// sums that fit it.
    pub proof fn lemma_fast_is_slow(&self, wl: int)
        requires
            self.wf(),
            1 <= wl < TARGET_APF,
        ensures
            self.fast_sums(wl) == self.slow_sums(wl),
    {
        let lower = Self::lower_bound(wl);
        let found = self.nearest_memo(lower, wl - 1);
        self.lemma_nearest_memo(lower, wl - 1);
        if found >= lower {
            assert(self.memo_ok(found));
            let s = self.slow_sums(found);
            Xyz::lemma_packed(s.x as u32, s.y as u32, s.z as u32);
            assert(spec_memo_sums(self.all_reuses[found]) == s);
            self.lemma_rebuilt(found, wl);
        } else {
            self.lemma_rebuilt(lower, wl);
        }
    }

    /// The sample after the sums of window length `wl` were computed.
    pub open spec fn after_compute(&self, wl: int) -> ReuseView {
        if wl >= TARGET_APF || wl == 0 {
            self.after_slow(wl)
        } else {
            self.after_fast(wl)
        }
    }

    /// Leaving the true sums of a window length in the memo keeps the
    /// sample well formed.
    pub proof fn lemma_with_memo(&self, r: int)
        requires
            self.wf(),
            0 <= r < TARGET_APF,
        ensures
            self.with_memo(r, self.slow_sums(r)).wf(),
            forall|w: int| self.with_memo(r, self.slow_sums(r)).slow_sums(w) == self.slow_sums(w),
    {
        let after = self.with_memo(r, self.slow_sums(r));
        assert forall|q: int| 0 <= q < TARGET_APF implies #[trigger] after.memo_ok(q) by {
            assert(self.memo_ok(q));
        }
    }
}

/// An event counter after one more event; it stops at its greatest value.
pub open spec fn spec_bump(n: u64) -> u64 {
    if n < u64::MAX {
        (n + 1) as u64
    } else {
        n
    }
}

/// The filled-in memo entry that holds `s`, each sum cut to 21 bits.
pub open spec fn spec_pack(s: Sums) -> Xyz {
    Xyz::spec_packed(
        (s.x % 0x20_0000) as u32,
        (s.y % 0x20_0000) as u32,
        (s.z % 0x20_0000) as u32,
    )
}

impl Reuse {
    /// A sample without its rings; `init` puts them in place.
    pub fn def() -> (r: Reuse)
        ensures
            r@.current_time == 0,
            r@.num_intervals == 0,
            r@.free_intervals.len() == 0,
            r@.all_reuses.len() == 0,
            r@.memo_top == 0,
            r@.boost_count == 0,
            !r@.is_hibernating,
            r@.num_frees == 0,
            r@.num_events == 0,
    {
        Reuse {
            current_time: 0,
            num_intervals: 0,
            free_intervals: Vec::new(),
            all_reuses: Vec::new(),
            memo_top: 0,
            boost_count: 0,
            is_hibernating: false,
            num_frees: 0,
            num_events: 0,
        }
    }

    /// Puts the two rings in place: no interval recorded, no memo entry
    /// filled in.
    pub fn init(&mut self)
        ensures
            final(self)@.free_intervals == Seq::new(
                (NUM_FREE_INTERVALS + 1) as nat,
                |i: int| (0u32, 0u32),
            ),
            final(self)@.all_reuses == Seq::new(TARGET_APF as nat, |i: int| Xyz::spec_new()),
            final(self)@.memo_top == 0,
            final(self)@.current_time == old(self)@.current_time,
            final(self)@.num_intervals == old(self)@.num_intervals,
            final(self)@.boost_count == old(self)@.boost_count,
            final(self)@.is_hibernating == old(self)@.is_hibernating,
            final(self)@.num_frees == old(self)@.num_frees,
            final(self)@.num_events == old(self)@.num_events,
    {
        let mut intervals: Vec<(u32, u32)> = Vec::new();
        let mut i: u32 = 0;
        while i < NUM_FREE_INTERVALS + 1
            invariant
                i <= NUM_FREE_INTERVALS + 1,
                intervals@.len() == i,
                forall|k: int| 0 <= k < i ==> #[trigger] intervals@[k] == (0u32, 0u32),
            decreases NUM_FREE_INTERVALS + 1 - i,
        {
            intervals.push((0, 0));
            i += 1;
        }
        let mut memo: Vec<Xyz> = Vec::new();
        let mut r: u32 = 0;
        while r < TARGET_APF
            invariant
                r <= TARGET_APF,
                memo@.len() == r,
                forall|k: int| 0 <= k < r ==> #[trigger] memo@[k] == Xyz::spec_new(),
            decreases TARGET_APF - r,
        {
            memo.push(Xyz::new());
            r += 1;
        }
        assert(intervals@ =~= Seq::new((NUM_FREE_INTERVALS + 1) as nat, |i: int| (0u32, 0u32)));
        assert(memo@ =~= Seq::new(TARGET_APF as nat, |i: int| Xyz::spec_new()));
        self.free_intervals = intervals;
        self.all_reuses = memo;
        self.memo_top = 0;
    }

    /// Ticks since the window began.
    pub fn get_time(&self) -> (r: u32)
        ensures
            r == self@.current_time,
    {
        self.current_time
    }

    /// Empties the memo: the entries below the top are the only ones that
    /// can be filled in.
    fn clear_memo(&mut self)
        requires
            old(self)@.all_reuses.len() == TARGET_APF,
            old(self)@.memo_top <= TARGET_APF,
            forall|r: int|
                old(self)@.memo_top <= r < TARGET_APF ==> #[trigger] old(self)@.all_reuses[r]
                    == Xyz::spec_new(),
        ensures
            final(self)@ == old(self)@.cleared(),
    {
        let top: usize = self.memo_top as usize;
        let mut i: usize = 0;
        while i < top
            invariant
                i <= top,
                top <= TARGET_APF,
                self.all_reuses@.len() == TARGET_APF,
                forall|r: int| top <= r < TARGET_APF ==> #[trigger] self.all_reuses@[r] == Xyz::spec_new(),
                forall|r: int| 0 <= r < i ==> #[trigger] self.all_reuses@[r] == Xyz::spec_new(),
                self.current_time == old(self).current_time,
                self.num_intervals == old(self).num_intervals,
                self.free_intervals == old(self).free_intervals,
                self.boost_count == old(self).boost_count,
                self.is_hibernating == old(self).is_hibernating,
                self.num_frees == old(self).num_frees,
                self.num_events == old(self).num_events,
            decreases top - i,
        {
            self.all_reuses.set(i, Xyz::new());
            i += 1;
        }
        self.memo_top = 0;
        assert(self@.all_reuses =~= old(self)@.cleared().all_reuses);
    }

    /// Records an allocation: the oldest free that still waits for one is
    /// completed into a reuse interval.
    pub fn on_allocation(&mut self)
        requires
            old(self)@.wf(),
        ensures
            final(self)@ == old(self)@.after_allocation(),
            final(self)@.wf(),
    {
        if self.is_hibernating {
            return ;
        }
        proof {
            Xyz::lemma_new();
            assert forall|r: int| self@.memo_top <= r < TARGET_APF implies #[trigger] self@.all_reuses[r]
                == Xyz::spec_new() by {
                assert(self@.memo_ok(r));
            }
        }
        self.clear_memo();
        let slot: usize = self.num_intervals as usize;
        let interval = self.free_intervals[slot];
        if interval.0 != 0 {
            self.free_intervals.set(slot, (interval.0, self.current_time));
            self.num_intervals = (self.num_intervals + 1) % NUM_FREE_INTERVALS;
        }
        if self.num_events < u64::MAX {
            self.num_events += 1;
        }
        proof {
            assert(self@.free_intervals =~= old(self)@.after_allocation().free_intervals);
            assert forall|r: int| 0 <= r < TARGET_APF implies #[trigger] self@.memo_ok(r) by {}
        }
    }

    /// Records a free: a new interval opens at the current time.
    pub fn on_free(&mut self)
        requires
            old(self)@.wf(),
        ensures
            final(self)@ == old(self)@.after_free(),
            final(self)@.wf(),
    {
        if self.is_hibernating {
            return ;
        }
        proof {
            Xyz::lemma_new();
            assert forall|r: int| self@.memo_top <= r < TARGET_APF implies #[trigger] self@.all_reuses[r]
                == Xyz::spec_new() by {
                assert(self@.memo_ok(r));
            }
        }
        self.clear_memo();
        let slot: usize = self.num_frees as usize;
        let interval = self.free_intervals[slot];
        self.free_intervals.set(slot, (self.current_time, interval.1));
        self.num_frees = (self.num_frees + 1) % NUM_FREE_INTERVALS;
        if self.num_events < u64::MAX {
            self.num_events += 1;
        }
        proof {
            assert(self@.free_intervals =~= old(self)@.after_free().free_intervals);
            assert forall|r: int| 0 <= r < TARGET_APF implies #[trigger] self@.memo_ok(r) by {}
        }
    }

    /// Advances the time by one tick.
    pub fn inc_timer(&mut self)
        requires
            old(self)@.wf(),
        ensures
            final(self)@ == old(self)@.after_tick(),
            final(self)@.wf(),
            old(self)@.current_time + 1 == BOOST_LENGTH ==> final(self)@.is_reset(),
    {
        self.current_time += 1;
        if self.current_time == BOOST_LENGTH {
            proof {
                Xyz::lemma_new();
                assert forall|r: int| self@.memo_top <= r < TARGET_APF implies #[trigger] self@.all_reuses[r]
                    == Xyz::spec_new() by {
                    assert(old(self)@.memo_ok(r));
                }
            }
            self.clear_memo();
            if self.is_hibernating {
                self.is_hibernating = false;
                self.boost_count = 0;
            } else if self.boost_count == 1 {
                self.is_hibernating = true;
            } else {
                self.boost_count += 1;
            }
            self.current_time = 0;
            let n: usize = self.free_intervals.len();
            let mut i: usize = 0;
            while i < n
                invariant
                    i <= n,
                    n == self.free_intervals@.len(),
                    n == NUM_FREE_INTERVALS + 1,
                    forall|k: int| 0 <= k < i ==> #[trigger] self.free_intervals@[k] == (0u32, 0u32),
                    self.all_reuses@ == old(self)@.cleared().all_reuses,
                    self.memo_top == 0,
                    self.current_time == 0,
                    self.boost_count == old(self)@.after_tick().boost_count,
                    self.is_hibernating == old(self)@.after_tick().is_hibernating,
                decreases n - i,
            {
                self.free_intervals.set(i, (0, 0));
                i += 1;
            }
            self.num_intervals = 0;
            self.num_frees = 0;
            self.num_events = 0;
            proof {
                assert(self@.free_intervals =~= old(self)@.after_tick().free_intervals);
                assert forall|r: int| 0 <= r < TARGET_APF implies #[trigger] self@.memo_ok(r) by {}
            }
        } else {
            proof {
                assert forall|r: int| 0 <= r < TARGET_APF implies #[trigger] self@.memo_ok(r) by {
                    assert(old(self)@.memo_ok(r));
                }
            }
        }
    }
}

/// Whether the three numbers are the three sums.
pub open spec fn spec_sums_are(r: (i64, i64, i64), s: Sums) -> bool {
    r.0 == s.x && r.1 == s.y && r.2 == s.z
}

/// The lesser of `num_events - wl` and `free`.
fn capped_free_time(num_events: u64, wl: u32, free: u32) -> (r: i64)
    ensures
        r == spec_min(num_events - wl, free as int),
        -0x1_0000_0000 < r < 0x1_0000_0000,
{
    if num_events >= wl as u64 {
        let d: u64 = num_events - wl as u64;
        if d < free as u64 {
            d as i64
        } else {
            free as i64
        }
    } else {
        -((wl as u64 - num_events) as i64)
    }
}

/// What one interval adds to the sums of window length `wl`.
fn slow_term(iv: (u32, u32), num_events: u64, wl: u32) -> (r: (i64, i64, i64))
    ensures
        spec_sums_are(r, spec_slow_term(iv, num_events as int, wl as int)),
        -0x1_0000_0000 < r.0 < 0x1_0000_0000,
        0 <= r.1 < 0x1_0000_0000,
        0 <= r.2 < 0x1_0000_0000,
{
    if iv.1 >= iv.0 && iv.1 - iv.0 < wl {
        let y: u32 = if wl >= iv.1 {
            wl
        } else {
            iv.1
        };
        (capped_free_time(num_events, wl, iv.0), y as i64, wl as i64)
    } else {
        (0, 0, 0)
    }
}

/// What one interval adds when the sums of window length `r - 1` are turned
/// into those of window length `r`.
fn fast_term(iv: (u32, u32), num_events: u64, r: u32) -> (t: (i64, i64, i64))
    requires
        r >= 1,
    ensures
        spec_sums_are(t, spec_fast_term(iv, num_events as int, r as int)),
        -0x1_0000_0000 < t.0 < 0x1_0000_0000,
        0 <= t.1 < 0x1_0000_0000,
        0 <= t.2 < 0x1_0000_0000,
{
    if iv.1 >= iv.0 && (iv.1 - iv.0) as u64 + 1 == r as u64 {
        let y: u32 = if r >= iv.1 {
            r
        } else {
            iv.1
        };
        (capped_free_time(num_events, r, iv.0), y as i64, r as i64)
    } else if iv.1 >= iv.0 && iv.1 - iv.0 < r - 1 {
        let x: i64 = if iv.0 as u64 + r as u64 > num_events {
            -1
        } else {
            0
        };
        let y: i64 = if iv.1 <= r - 1 {
            1
        } else {
            0
        };
        (x, y, 1)
    } else {
        (0, 0, 0)
    }
}

impl Reuse {
    /// Leaves the sums of window length `r` in the memo, if they fit an
    /// entry.
    fn store_memo(&mut self, r: u32, s: (i64, i64, i64))
        requires
            old(self)@.wf(),
            r < TARGET_APF,
            spec_sums_are(s, old(self)@.slow_sums(r as int)),
        ensures
            final(self)@ == old(self)@.with_memo(r as int, old(self)@.slow_sums(r as int)),
            final(self)@.wf(),
            forall|w: int| final(self)@.slow_sums(w) == old(self)@.slow_sums(w),
            spec_fits(old(self)@.slow_sums(r as int)) ==> final(self)@.all_reuses[r as int]
                == spec_pack(old(self)@.slow_sums(r as int)) && final(self)@.all_reuses[r as int].spec_init(),
    {
        proof {
            old(self)@.lemma_with_memo(r as int);
            let sums = old(self)@.slow_sums(r as int);
            if spec_fits(sums) {
                Xyz::lemma_packed(sums.x as u32, sums.y as u32, sums.z as u32);
            }
        }
        if 0 <= s.0 && s.0 < 0x20_0000 && 0 <= s.1 && s.1 < 0x20_0000 && 0 <= s.2 && s.2 < 0x20_0000 {
            let xyz = Xyz::packed(s.0 as u32, s.1 as u32, s.2 as u32);
            self.all_reuses.set(r as usize, xyz);
            if self.memo_top <= r {
                self.memo_top = r + 1;
            }
        }
    }

    /// The sums of window length `wl`, added up over the recorded intervals.
    fn direct_sums(&self, wl: u32) -> (r: (i64, i64, i64))
        requires
            self@.wf(),
        ensures
            spec_sums_are(r, self@.slow_sums(wl as int)),
            -0x100_0000_0000 < r.0 < 0x100_0000_0000,
            0 <= r.1 < 0x100_0000_0000,
            0 <= r.2 < 0x100_0000_0000,
    {
        let mut x: i64 = 0;
        let mut y: i64 = 0;
        let mut z: i64 = 0;
        let n: usize = self.num_intervals as usize;
        let mut i: usize = 0;
        while i < n
            invariant
                i <= n,
                n == self.num_intervals,
                n < NUM_FREE_INTERVALS,
                self.free_intervals@.len() == NUM_FREE_INTERVALS + 1,
                spec_sums_are(
                    (x, y, z),
                    spec_slow_sums(self.free_intervals@, i as int, self.num_events as int, wl as int),
                ),
                -0x1_0000_0000 * i <= x <= 0x1_0000_0000 * i,
                0 <= y <= 0x1_0000_0000 * i,
                0 <= z <= 0x1_0000_0000 * i,
            decreases n - i,
        {
            let t = slow_term(self.free_intervals[i], self.num_events, wl);
            x = x + t.0;
            y = y + t.1;
            z = z + t.2;
            i += 1;
        }
        (x, y, z)
    }

    /// The sums of window length `wl`, added up over the recorded intervals.
    /// A window length below the target leaves them in the memo.
    fn compute_slow(&mut self, wl: u32) -> (r: (i64, i64, i64))
        requires
            old(self)@.wf(),
        ensures
            final(self)@ == old(self)@.after_slow(wl as int),
            final(self)@.wf(),
            spec_sums_are(r, old(self)@.slow_sums(wl as int)),
            -0x100_0000_0000 < r.0 < 0x100_0000_0000,
            0 <= r.1 < 0x100_0000_0000,
            0 <= r.2 < 0x100_0000_0000,
            forall|w: int| final(self)@.slow_sums(w) == old(self)@.slow_sums(w),
            wl < TARGET_APF && spec_fits(old(self)@.slow_sums(wl as int)) ==> final(self)@.all_reuses[wl as int]
                == spec_pack(old(self)@.slow_sums(wl as int)) && final(self)@.all_reuses[wl as int].spec_init(),
    {
        let s = self.direct_sums(wl);
        if wl < TARGET_APF {
            self.store_memo(wl, s);
        }
        s
    }

    /// The sums of window length `r`, rebuilt from those of `r - 1` by the
    /// corrections of the recorded intervals.
    fn rebuild_step(&self, prev: (i64, i64, i64), r: u32) -> (t: (i64, i64, i64))
        requires
            self@.wf(),
            r >= 1,
            spec_sums_are(prev, self@.slow_sums(r - 1)),
            -0x4000_0000_0000_0000 < prev.0 < 0x4000_0000_0000_0000,
            -0x4000_0000_0000_0000 < prev.1 < 0x4000_0000_0000_0000,
            -0x4000_0000_0000_0000 < prev.2 < 0x4000_0000_0000_0000,
        ensures
            spec_sums_are(t, self@.slow_sums(r as int)),
            prev.0 - 0x100_0000_0000 < t.0 < prev.0 + 0x100_0000_0000,
            prev.1 - 0x100_0000_0000 < t.1 < prev.1 + 0x100_0000_0000,
            prev.2 - 0x100_0000_0000 < t.2 < prev.2 + 0x100_0000_0000,
    {
        let mut x: i64 = prev.0;
        let mut y: i64 = prev.1;
        let mut z: i64 = prev.2;
        let n: usize = self.num_intervals as usize;
        let ghost base = self@.slow_sums(r - 1);
        let mut i: usize = 0;
        while i < n
            invariant
                i <= n,
                n == self.num_intervals,
                n < NUM_FREE_INTERVALS,
                r >= 1,
                self.free_intervals@.len() == NUM_FREE_INTERVALS + 1,
                -0x4000_0000_0000_0000 < prev.0 < 0x4000_0000_0000_0000,
                -0x4000_0000_0000_0000 < prev.1 < 0x4000_0000_0000_0000,
                -0x4000_0000_0000_0000 < prev.2 < 0x4000_0000_0000_0000,
                spec_sums_are(
                    (x, y, z),
                    spec_fast_sums(
                        base,
                        self.free_intervals@,
                        i as int,
                        self.num_events as int,
                        r as int,
                    ),
                ),
                spec_sums_are(prev, base),
                prev.0 - 0x1_0000_0000 * i <= x <= prev.0 + 0x1_0000_0000 * i,
                prev.1 - 0x1_0000_0000 * i <= y <= prev.1 + 0x1_0000_0000 * i,
                prev.2 - 0x1_0000_0000 * i <= z <= prev.2 + 0x1_0000_0000 * i,
            decreases n - i,
        {
            let t = fast_term(self.free_intervals[i], self.num_events, r);
            x = x + t.0;
            y = y + t.1;
            z = z + t.2;
            i += 1;
        }
        proof {
            lemma_memo_path_is_direct(
                self.free_intervals@,
                n as int,
                self.num_events as int,
                r as int,
            );
        }
        (x, y, z)
    }

    /// The sums of window length `wl`, by way of the memo: from the nearest
    /// filled-in entry below `wl`, or from the directly computed sums of the
    /// lower bound if no entry is in reach, the sums of each window length
    /// up to `wl` are rebuilt from those of the one before and left in the
    /// memo.
    fn compute_fast(&mut self, wl: u32) -> (r: (i64, i64, i64))
        requires
            old(self)@.wf(),
            1 <= wl < TARGET_APF,
        ensures
            final(self)@ == old(self)@.after_fast(wl as int),
            final(self)@.wf(),
            spec_sums_are(r, old(self)@.slow_sums(wl as int)),
            -0x4000_0000_0000 < r.0 < 0x4000_0000_0000,
            -0x4000_0000_0000 < r.1 < 0x4000_0000_0000,
            -0x4000_0000_0000 < r.2 < 0x4000_0000_0000,
            forall|w: int| final(self)@.slow_sums(w) == old(self)@.slow_sums(w),
            spec_fits(old(self)@.slow_sums(wl as int)) ==> final(self)@.all_reuses[wl as int]
                == spec_pack(old(self)@.slow_sums(wl as int)) && final(self)@.all_reuses[wl as int].spec_init(),
    {
        let lower_bound: u32 = if wl <= REUSE_COMPUTE_INTERVAL {
            0
        } else {
            wl - REUSE_COMPUTE_INTERVAL
        };
        let mut lowest_computed: u32 = lower_bound;
        let mut found: bool = false;
        let mut k: u32 = wl;
        while k > lower_bound && !found
            invariant
                lower_bound <= k <= wl,
                wl < TARGET_APF,
                self.all_reuses@.len() == TARGET_APF,
                found ==> k < wl && lowest_computed == k && self@.all_reuses[k as int].spec_init()
                    && self@.nearest_memo(lower_bound as int, wl - 1) == k,
                !found ==> lowest_computed == lower_bound && self@.nearest_memo(
                    lower_bound as int,
                    wl - 1,
                ) == self@.nearest_memo(lower_bound as int, k - 1),
            decreases k - lower_bound + (if found { 0int } else { 1int }),
        {
            k = k - 1;
            if self.all_reuses[k as usize].init() {
                found = true;
                lowest_computed = k;
            }
        }
        let mut s: (i64, i64, i64) = (0, 0, 0);
        if found {
            let e = self.all_reuses[lowest_computed as usize];
            proof {
                assert(self@.memo_ok(lowest_computed as int));
                let sums = self@.slow_sums(lowest_computed as int);
                Xyz::lemma_packed(sums.x as u32, sums.y as u32, sums.z as u32);
            }
            s = (e.x() as i64, e.y() as i64, e.z() as i64);
        } else {
            s = self.compute_slow(lowest_computed);
        }
        let ghost base = self@;
        let ghost start = lowest_computed as int;
        proof {
            if !found {
                old(self)@.lemma_with_memo(start);
            }
        }
        let mut r: u32 = lowest_computed;
        while r < wl
            invariant
                0 <= start <= r <= wl,
                wl < TARGET_APF,
                base.wf(),
                self@.wf(),
                self@ == base.filled(start, r as int),
                forall|w: int| self@.slow_sums(w) == base.slow_sums(w),
                forall|w: int| base.slow_sums(w) == old(self)@.slow_sums(w),
                r > start && spec_fits(base.slow_sums(r as int)) ==> self@.all_reuses[r as int]
                    == spec_pack(base.slow_sums(r as int)) && self@.all_reuses[r as int].spec_init(),
                spec_sums_are(s, base.slow_sums(r as int)),
                -0x100_0000_0000 * (r - start + 1) < s.0 < 0x100_0000_0000 * (r - start + 1),
                -0x100_0000_0000 * (r - start + 1) < s.1 < 0x100_0000_0000 * (r - start + 1),
                -0x100_0000_0000 * (r - start + 1) < s.2 < 0x100_0000_0000 * (r - start + 1),
            decreases wl - r,
        {
            r += 1;
            s = self.rebuild_step(s, r);
            proof {
                self@.lemma_with_memo(r as int);
            }
            self.store_memo(r, s);
        }
        s
    }

    /// The reuse of window length `wl`, as the quotient of the combined sums
    /// and the number of windows of that length. The sums are those of the
    /// direct sum over the recorded intervals; for window lengths from 1 up
    /// to the target they are had by way of the memo.
    pub fn compute(&mut self, wl: u32) -> (r: Ratio)
        requires
            old(self)@.wf(),
        ensures
            final(self)@ == old(self)@.after_compute(wl as int),
            final(self)@.wf(),
            (r.num as int, r.den as int) == spec_ratio(
                old(self)@.sums(wl as int),
                old(self)@.num_events as int,
                wl as int,
            ),
            wl < TARGET_APF && spec_fits(old(self)@.sums(wl as int)) ==> final(self)@.all_reuses[wl as int]
                == spec_pack(old(self)@.sums(wl as int)) && final(self)@.all_reuses[wl as int].spec_init(),
            forall|w: int| final(self)@.sums(w) == old(self)@.sums(w),
    {
        let num_events: u64 = self.num_events;
        let s = if wl >= TARGET_APF || wl == 0 {
            self.compute_slow(wl)
        } else {
            self.compute_fast(wl)
        };
        Ratio { num: s.0 - s.1 + s.2, den: num_events as i128 - wl as i128 + 1 }
    }
}

/// What a predictor holds, as plain values.
pub struct ApfView {
    /// The sample.
    pub reuse: ReuseView,
    /// Fetches since the predictor was made.
    pub num_fetches: u32,
    /// The window length in use.
    pub current_apf: u32,
    /// The events that should lie between two fetches.
    pub target_apf: u32,
}

impl ApfView {
    /// The predictor of a thread that was just admitted: the default
    /// target, no fetch, an empty sample and an empty memo.
    pub open spec fn spec_new() -> ApfView {
        ApfView {
            reuse: ReuseView {
                current_time: 0,
                num_intervals: 0,
                free_intervals: Seq::new((NUM_FREE_INTERVALS + 1) as nat, |i: int| (0u32, 0u32)),
                all_reuses: Seq::new(TARGET_APF as nat, |i: int| Xyz::spec_new()),
                memo_top: 0,
                boost_count: 0,
                is_hibernating: false,
                num_frees: 0,
                num_events: 0,
            },
            num_fetches: 0,
            current_apf: 0,
            target_apf: TARGET_APF,
        }
    }

    /// The window length that the next decision uses: the events left until
    /// the next fetch is due, but at least the target.
    pub open spec fn next_apf(&self) -> int {
        let due = self.target_apf * (self.num_fetches + 1) - self.reuse.current_time;
        let wl = spec_max(self.target_apf as int, due);
        if wl > u32::MAX {
            u32::MAX as int
        } else {
            wl
        }
    }

    /// The blocks that the thread is expected to need over a window of
    /// length `wl`.
    pub open spec fn demand(&self, wl: int) -> int {
        let q = spec_ratio(self.reuse.sums(wl), self.reuse.num_events as int, wl);
        spec_demand(wl, q.0, q.1)
    }

    /// The number of blocks to give back when `available` are at hand, if
    /// there are more than twice the demand.
    pub open spec fn slots_to_cut(&self, available: int) -> Option<int> {
        let demand = self.demand(self.next_apf());
        if 2 * demand <= u64::MAX && available >= 2 * demand + 1 {
            Some(demand + 1)
        } else {
            None
        }
    }
}

/// The predictor of one thread for one size class.
#[derive(Debug)]
pub struct Apf {
    reuse: Reuse,
    num_fetches: u32,
    current_apf: u32,
    target_apf: u32,
}

impl View for Apf {
    type V = ApfView;

    closed spec fn view(&self) -> ApfView {
        ApfView {
            reuse: self.reuse@,
            num_fetches: self.num_fetches,
            current_apf: self.current_apf,
            target_apf: self.target_apf,
        }
    }
}

impl Apf {
    /// A predictor with the default target, before `init`.
    pub fn new() -> (r: Apf)
        ensures
            r@.num_fetches == 0,
            r@.current_apf == 0,
            r@.target_apf == TARGET_APF,
            r@.reuse.current_time == 0,
            r@.reuse.num_intervals == 0,
            r@.reuse.num_frees == 0,
            r@.reuse.num_events == 0,
            r@.reuse.boost_count == 0,
            !r@.reuse.is_hibernating,
    {
        Apf { reuse: Reuse::def(), num_fetches: 0, current_apf: 0, target_apf: TARGET_APF }
    }

    /// Puts the rings of the sample in place.
    pub fn init(&mut self)
        requires
            old(self)@.reuse.num_intervals < NUM_FREE_INTERVALS,
            old(self)@.reuse.num_frees < NUM_FREE_INTERVALS,
            old(self)@.reuse.current_time < BOOST_LENGTH,
            old(self)@.reuse.boost_count <= 1,
        ensures
            final(self)@.reuse.wf(),
            final(self)@.reuse.free_intervals == Seq::new(
                (NUM_FREE_INTERVALS + 1) as nat,
                |i: int| (0u32, 0u32),
            ),
            final(self)@.reuse.all_reuses == Seq::new(TARGET_APF as nat, |i: int| Xyz::spec_new()),
            final(self)@.reuse.memo_top == 0,
            forall|i: int|
                0 <= i < TARGET_APF ==> !(#[trigger] final(self)@.reuse.all_reuses[i]).spec_init(),
            final(self)@.reuse.current_time == old(self)@.reuse.current_time,
            final(self)@.reuse.num_intervals == old(self)@.reuse.num_intervals,
            final(self)@.reuse.boost_count == old(self)@.reuse.boost_count,
            final(self)@.reuse.is_hibernating == old(self)@.reuse.is_hibernating,
            final(self)@.reuse.num_frees == old(self)@.reuse.num_frees,
            final(self)@.reuse.num_events == old(self)@.reuse.num_events,
            final(self)@.num_fetches == old(self)@.num_fetches,
            final(self)@.current_apf == old(self)@.current_apf,
            final(self)@.target_apf == old(self)@.target_apf,
    {
        self.reuse.init();
        proof {
            Xyz::lemma_new();
            assert forall|r: int| 0 <= r < TARGET_APF implies #[trigger] self@.reuse.memo_ok(r) by {}
        }
    }

    /// Records an allocation.
    pub fn on_allocation(&mut self)
        requires
            old(self)@.reuse.wf(),
        ensures
            final(self)@ == (ApfView { reuse: old(self)@.reuse.after_allocation(), ..old(self)@ }),
            final(self)@.reuse.wf(),
    {
        self.reuse.on_allocation();
    }

    /// Records a free.
    pub fn on_free(&mut self)
        requires
            old(self)@.reuse.wf(),
        ensures
            final(self)@ == (ApfView { reuse: old(self)@.reuse.after_free(), ..old(self)@ }),
            final(self)@.reuse.wf(),
    {
        self.reuse.on_free();
    }

    /// Records a fetch. The count stops at its greatest value.
    pub fn on_fetch(&mut self)
        ensures
            final(self)@ == (ApfView {
                num_fetches: if old(self)@.num_fetches < u32::MAX {
                    (old(self)@.num_fetches + 1) as u32
                } else {
                    old(self)@.num_fetches
                },
                ..old(self)@
            }),
    {
        if self.num_fetches < u32::MAX {
            self.num_fetches += 1;
        }
    }

    /// Advances the time by one tick.
    pub fn inc_timer(&mut self)
        requires
            old(self)@.reuse.wf(),
        ensures
            final(self)@ == (ApfView { reuse: old(self)@.reuse.after_tick(), ..old(self)@ }),
            final(self)@.reuse.wf(),
    {
        self.reuse.inc_timer();
    }

    /// The blocks that the thread is expected to need over a window of
    /// length `wl`: the window length less the reuse, cut to a whole number.
    pub fn demand(&mut self, wl: u32) -> (r: usize)
        requires
            old(self)@.reuse.wf(),
        ensures
            r == old(self)@.demand(wl as int),
            final(self)@ == (ApfView {
                reuse: old(self)@.reuse.after_compute(wl as int),
                ..old(self)@
            }),
            final(self)@.reuse.wf(),
    {
        let ratio = self.reuse.compute(wl);
        demand_of(wl, ratio)
    }

    /// Fetches since the predictor was made.
    pub fn get_num_fetches(&self) -> (r: u32)
        ensures
            r == self@.num_fetches,
    {
        self.num_fetches
    }

    /// The window length in use.
    pub fn get_current_apf(&self) -> (r: u32)
        ensures
            r == self@.current_apf,
    {
        self.current_apf
    }

    /// Ticks since the window began.
    pub fn get_time(&self) -> (r: u32)
        ensures
            r == self@.reuse.current_time,
    {
        self.reuse.get_time()
    }

    /// The events that should lie between two fetches.
    pub fn get_target_apf(&self) -> (r: u32)
        ensures
            r == self@.target_apf,
    {
        self.target_apf
    }

    /// Sets the events that should lie between two fetches.
    pub fn set_target_apf(&mut self, target_apf: u32)
        ensures
            final(self)@ == (ApfView { target_apf: target_apf, ..old(self)@ }),
    {
        self.target_apf = target_apf;
    }

    /// Sets the window length in use to the events left until the next
    /// fetch is due, but at least the target.
    pub fn update_apf(&mut self)
        ensures
            final(self)@ == (ApfView { current_apf: old(self)@.next_apf() as u32, ..old(self)@ }),
    {
        let current_time: u64 = self.reuse.get_time() as u64;
        assert(self.target_apf * (self.num_fetches + 1) <= 0xFFFF_FFFF * 0x1_0000_0000)
            by (nonlinear_arith)
            requires
                self.target_apf <= 0xFFFF_FFFF,
                self.num_fetches + 1 <= 0x1_0000_0000,
        ;
        let due: u64 = (self.target_apf as u64) * (self.num_fetches as u64 + 1);
        let wl: u64 = if due <= current_time || due - current_time <= self.target_apf as u64 {
            self.target_apf as u64
        } else {
            due - current_time
        };
        self.current_apf = if wl > u32::MAX as u64 {
            u32::MAX
        } else {
            wl as u32
        };
    }

    /// Decides whether the thread keeps too many blocks. With `available`
    /// blocks at hand and a demand of `d` over the window in use, it says to
    /// give back `d + 1` of them if `available` is at least `2 * d + 1`.
    pub fn should_update_slots(&mut self, available_slots: usize) -> (r: Option<usize>)
        requires
            old(self)@.reuse.wf(),
        ensures
            match old(self)@.slots_to_cut(available_slots as int) {
                Some(n) => r == Some(n as usize) && 1 <= n <= available_slots,
                None => r.is_none(),
            },
            final(self)@ == (ApfView {
                current_apf: old(self)@.next_apf() as u32,
                reuse: old(self)@.reuse.after_compute(old(self)@.next_apf()),
                ..old(self)@
            }),
            final(self)@.reuse.wf(),
    {
        self.update_apf();
        let demand: usize = self.demand(self.current_apf);
        if demand as u64 <= u64::MAX / 2 {
            let res: u64 = (demand as u64) * 2;
            if available_slots as u64 >= res + 1 {
                Some(demand + 1)
            } else {
                None
            }
        } else {
            None
        }
    }
}

} // verus!
