//! Quantized speed dial: a discrete level mapped to a delay per event.

use vstd::prelude::*;

verus! {

/// Glyph of a filled gauge segment.
pub const FILLED: char = '\u{2588}';

/// Glyph of an empty gauge segment.
pub const HOLLOW: char = '\u{2591}';

/// Largest number of levels a scale may have.
pub const MAX_LEVELS: usize = 1000;

/// Longest base delay of a scale, in microseconds.
pub const MAX_DELTA_MICROS: u64 = 1_000_000;

/// Delay per event, in microseconds, of a scale with base delay `delta` and
/// `levels` levels when it stands at `level`: the base delay times the
/// square of one more than the distance to the top.
pub open spec fn delay_micros(delta: nat, levels: nat, level: nat) -> nat {
    delta * ((levels - level + 1) * (levels - level + 1)) as nat
}

/// Starting level for a grid whose larger side has `size` cells, on a scale
/// of `levels` levels: `size / 255` as a share of the top level, rounded to
/// the nearest level, halves upward, and no more than the top level.
pub open spec fn calibrated_level(size: nat, levels: nat) -> nat {
    let level = ((2 * size * (levels - 1) + 255) / 510) as nat;
    if level + 1 < levels {
        level
    } else {
        (levels - 1) as nat
    }
}

/// Width in characters of segment `i` when `width` characters are shared
/// among `segments` segments: equal parts, the remainder going one apiece
/// to the first segments.
pub open spec fn segment_width(width: nat, segments: nat, i: nat) -> nat
    recommends
        segments > 0,
{
    width / segments + if i < width % segments {
        1nat
    } else {
        0nat
    }
}

/// The first `n` segments of a gauge of `width` characters in `segments`
/// segments, filled up to and including segment `level`.
pub open spec fn gauge_prefix(width: nat, segments: nat, level: nat, n: nat) -> Seq<char>
    recommends
        segments > 0,
    decreases n,
{
    if n == 0 {
        Seq::empty()
    } else {
        let i = (n - 1) as nat;
        gauge_prefix(width, segments, level, i) + Seq::new(
            segment_width(width, segments, i),
            |k: int|
                if i <= level {
                    FILLED
                } else {
                    HOLLOW
                },
        )
    }
}

/// Number of segments of a gauge `width` characters wide on a scale of
/// `levels` levels: one per level, but no more than fit and at least one.
pub open spec fn gauge_segments(width: nat, levels: nat) -> nat {
    let fit = if levels < width {
        levels
    } else {
        width
    };
    if fit < 1 {
        1
    } else {
        fit
    }
}

/// The gauge of `width` characters for a scale of `levels` levels standing
/// at `level`; empty at width zero.
pub open spec fn gauge(width: nat, levels: nat, level: nat) -> Seq<char> {
    if width == 0 {
        Seq::empty()
    } else {
        gauge_prefix(width, gauge_segments(width, levels), level, gauge_segments(width, levels))
    }
}

/// The first `n` segments of a gauge are together as wide as `n` equal
/// parts and the share of the remainder that went to them.
pub proof fn lemma_gauge_prefix_len(width: nat, segments: nat, level: nat, n: nat)
    requires
        segments > 0,
    ensures
        gauge_prefix(width, segments, level, n).len() == n * (width / segments) + (if n < width
            % segments {
            n
        } else {
            width % segments
        }),
    decreases n,
{
    let q = width / segments;
    if n > 0 {
        lemma_gauge_prefix_len(width, segments, level, (n - 1) as nat);
        assert(n * q == (n - 1) * q + q) by (nonlinear_arith);
    } else {
        assert(n * q == 0) by (nonlinear_arith)
            requires
                n == 0,
        ;
    }
}

/// A gauge is exactly as wide as asked.
pub proof fn lemma_gauge_len(width: nat, levels: nat, level: nat)
    ensures
        gauge(width, levels, level).len() == width,
{
    if width > 0 {
        let segments = gauge_segments(width, levels);
        lemma_gauge_prefix_len(width, segments, level, segments);
        assert(width == segments * (width / segments) + width % segments) by {
            vstd::arithmetic::div_mod::lemma_fundamental_div_mod(width as int, segments as int);
        }
        assert(width % segments < segments) by {
            vstd::arithmetic::div_mod::lemma_mod_bound(width as int, segments as int);
        }
    }
}

/// Faster levels have strictly shorter delays.
pub proof fn lemma_delay_decreases(delta: nat, levels: nat, slower: nat, faster: nat)
    requires
        delta > 0,
        slower < faster <= levels,
    ensures
        delay_micros(delta, levels, faster) < delay_micros(delta, levels, slower),
{
    let a = levels - faster + 1;
    let b = levels - slower + 1;
    assert(a * a < b * b) by (nonlinear_arith)
        requires
            0 < a < b,
    ;
    assert(delta * (a * a) < delta * (b * b)) by (nonlinear_arith)
        requires
            delta > 0,
            a * a < b * b,
    ;
}

/// Larger grids never start at a slower level.
pub proof fn lemma_calibrated_monotonic(smaller: nat, larger: nat, levels: nat)
    requires
        smaller <= larger,
        levels >= 1,
    ensures
        calibrated_level(smaller, levels) <= calibrated_level(larger, levels),
{
    let a = 2 * smaller * (levels - 1) + 255;
    let b = 2 * larger * (levels - 1) + 255;
    assert(a <= b) by (nonlinear_arith)
        requires
            smaller <= larger,
            levels >= 1,
            a == 2 * smaller * (levels - 1) + 255,
            b == 2 * larger * (levels - 1) + 255,
    ;
    vstd::arithmetic::div_mod::lemma_div_is_ordered(a as int, b as int, 510);
}

/// Every grid starts below the number of levels; one without cells starts
/// at the slowest level, and one of 255 cells a side at the fastest.
pub proof fn lemma_calibrated_in_range(size: nat, levels: nat)
    requires
        levels >= 1,
    ensures
        calibrated_level(size, levels) < levels,
        calibrated_level(0, levels) == 0,
        calibrated_level(255, levels) == levels - 1,
{
    let top = (levels - 1) as int;
    assert((2 * 255 * top + 255) / 510 == top) by {
        assert(2 * 255 * top + 255 == 510 * top + 255) by (nonlinear_arith);
        vstd::arithmetic::div_mod::lemma_fundamental_div_mod_converse(510 * top + 255, 510, top, 255);
    }
    assert((2 * 0 * top + 255) / 510 == 0) by {
        assert(2 * 0 * top + 255 == 255) by (nonlinear_arith);
    }
}

/// The text made of the given characters, in order.
///
/// Wraps `String::from_iter` over the characters of the vector, which
/// appends each to an empty string.
#[verifier::external_body]
fn string_of_chars(chars: &Vec<char>) -> (s: String)
    ensures
        s@ == chars@,
{
    String::from_iter(chars.iter())
}

/// A speed dial with a fixed number of levels. Level `0` is the slowest.
pub struct RenderRefreshTimeScale {
    delta_micros: u64,
    levels: usize,
    level: usize,
}

impl Default for RenderRefreshTimeScale {
    /// The default scale: 20 levels over a base delay of 10 microseconds,
    /// standing at level 10.
    fn default() -> (s: Self)
        ensures
            s.wf(),
            s.delta() == 10,
            s.levels() == 20,
            s.level() == 10,
    {
        RenderRefreshTimeScale { delta_micros: 10, levels: 20, level: 10 }
    }
}

impl RenderRefreshTimeScale {
    /// Base delay in microseconds.
    pub closed spec fn delta(&self) -> nat {
        self.delta_micros as nat
    }

    /// Number of levels.
    pub closed spec fn levels(&self) -> nat {
        self.levels as nat
    }

    /// Current level.
    pub closed spec fn level(&self) -> nat {
        self.level as nat
    }

    /// The level is below the number of levels, the base delay is positive,
    /// and both sizes are within the limits of a scale.
    pub closed spec fn wf(&self) -> bool {
        &&& self.level < self.levels <= MAX_LEVELS
        &&& 0 < self.delta_micros <= MAX_DELTA_MICROS
    }

    /// In a well-formed scale the level is below the number of levels and
    /// the base delay is positive.
    pub proof fn lemma_wf_bounds(&self)
        requires
            self.wf(),
        ensures
            self.level() < self.levels() <= MAX_LEVELS,
            0 < self.delta() <= MAX_DELTA_MICROS,
    {
    }

    /// The delay per event at the current level, in microseconds.
    pub open spec fn spec_current(&self) -> nat {
        delay_micros(self.delta(), self.levels(), self.level())
    }

    /// The default scale: 20 levels over a base delay of 10 microseconds,
    /// standing at level 10.
    pub fn new() -> (s: Self)
        ensures
            s.wf(),
            s.delta() == 10,
            s.levels() == 20,
            s.level() == 10,
    {
        RenderRefreshTimeScale { delta_micros: 10, levels: 20, level: 10 }
    }

    /// The default scale, started at a level that suits the grid: larger
    /// grids start faster.
    pub fn calibrated(grid_width: u8, grid_height: u8) -> (s: Self)
        ensures
            s.wf(),
            s.delta() == 10,
            s.levels() == 20,
            s.level() == calibrated_level(
                if grid_width >= grid_height {
                    grid_width as nat
                } else {
                    grid_height as nat
                },
                20,
            ),
    {
        let mut scale = Self::new();
        let size: usize = if grid_width >= grid_height {
            grid_width as usize
        } else {
            grid_height as usize
        };
        let top: usize = scale.levels - 1;
        let level: usize = (2 * size * top + 255) / 510;
        scale.level = if level < top {
            level
        } else {
            top
        };
        scale
    }

    /// Current level.
    pub fn get_level(&self) -> (l: usize)
        ensures
            l == self.level(),
    {
        self.level
    }

    /// Number of levels.
    pub fn get_levels(&self) -> (l: usize)
        ensures
            l == self.levels(),
    {
        self.levels
    }

    /// The delay per event at the current level, in microseconds.
    pub fn current(&self) -> (d: u64)
        requires
            self.wf(),
        ensures
            d == self.spec_current(),
            d > 0,
    {
        let factor: u64 = (self.levels - self.level) as u64 + 1;
        assert(2 <= factor <= 1001);
        assert(factor * factor <= 1002001 && factor * factor > 0) by (nonlinear_arith)
            requires
                2 <= factor <= 1001,
        ;
        let square: u64 = factor * factor;
        assert(self.delta_micros * square <= 1_002_001_000_000 && self.delta_micros * square > 0)
            by (nonlinear_arith)
            requires
                0 < self.delta_micros <= 1_000_000,
                0 < square <= 1002001,
        ;
        self.delta_micros * square
    }

    /// Moves one level faster; at the fastest level nothing changes. The
    /// delay gets strictly shorter exactly when the level moved.
    pub fn speed_up(&mut self)
        requires
            old(self).wf(),
        ensures
            final(self).wf(),
            final(self).delta() == old(self).delta(),
            final(self).levels() == old(self).levels(),
            final(self).level() == (if old(self).level() + 1 < old(self).levels() {
                old(self).level() + 1
            } else {
                old(self).level()
            }),
            old(self).level() + 1 < old(self).levels() ==> {
                final(self).spec_current() < old(self).spec_current()
            },
            old(self).level() + 1 >= old(self).levels() ==> {
                final(self).spec_current() == old(self).spec_current()
            },
    {
        if self.level < self.levels - 1 {
            self.level += 1;
            proof {
                lemma_delay_decreases(
                    self.delta(),
                    self.levels(),
                    old(self).level(),
                    self.level(),
                );
            }
        }
    }

    /// Moves one level slower; at the slowest level nothing changes. The
    /// delay gets strictly longer exactly when the level moved.
    pub fn slow_down(&mut self)
        requires
            old(self).wf(),
        ensures
            final(self).wf(),
            final(self).delta() == old(self).delta(),
            final(self).levels() == old(self).levels(),
            final(self).level() == (if old(self).level() > 0 {
                old(self).level() - 1
            } else {
                0
            }),
            old(self).level() > 0 ==> final(self).spec_current() > old(self).spec_current(),
            old(self).level() == 0 ==> final(self).spec_current() == old(self).spec_current(),
    {
        if self.level > 0 {
            self.level -= 1;
            proof {
                lemma_delay_decreases(
                    self.delta(),
                    self.levels(),
                    self.level(),
                    old(self).level(),
                );
            }
        }
    }

    /// A gauge of `width` characters showing the current level: one
    /// segment per level as far as they fit, filled up to and including the
    /// current level.
    pub fn make_scale_bar(&self, width: u16) -> (bar: String)
        requires
            self.wf(),
        ensures
            bar@ == gauge(width as nat, self.levels(), self.level()),
            bar@.len() == width,
    {
        let w: usize = width as usize;
        let mut chars: Vec<char> = Vec::new();
        proof {
            lemma_gauge_len(width as nat, self.levels(), self.level());
        }
        if w == 0 {
            return string_of_chars(&chars);
        }
        let fit: usize = if self.levels < w {
            self.levels
        } else {
            w
        };
        let seg_count: usize = if fit < 1 {
            1
        } else {
            fit
        };
        let base_seg_w: usize = w / seg_count;
        let rem: usize = w % seg_count;
        let mut i: usize = 0;
        while i < seg_count
            invariant
                0 < seg_count <= w,
                w == width,
                i <= seg_count,
                base_seg_w == w / seg_count,
                rem == w % seg_count,
                seg_count == gauge_segments(w as nat, self.levels()),
                chars@ == gauge_prefix(w as nat, seg_count as nat, self.level(), i as nat),
            decreases seg_count - i,
        {
            let seg_w: usize = base_seg_w + if i < rem {
                1
            } else {
                0
            };
            let glyph: char = if i <= self.level {
                FILLED
            } else {
                HOLLOW
            };
            let ghost before = chars@;
            let mut k: usize = 0;
            while k < seg_w
                invariant
                    k <= seg_w,
                    chars@ == before + Seq::new(k as nat, |j: int| glyph),
                decreases seg_w - k,
            {
                chars.push(glyph);
                k += 1;
                assert(chars@ =~= before + Seq::new(k as nat, |j: int| glyph));
            }
            assert(chars@ =~= before + Seq::new(
                segment_width(w as nat, seg_count as nat, i as nat),
                |j: int|
                    if i as nat <= self.level() {
                        FILLED
                    } else {
                        HOLLOW
                    },
            ));
            i += 1;
        }
        string_of_chars(&chars)
    }
}

} // verus!
