//! Colours as fixed vectors of weights over bands of block ids.
//!
//! One weight per *band* of block ids rather than per block: so many bands over
//! the whole chain, all of one width, so a colour is a vector of that many
//! weights however many blocks it spans. Beside the bands a colour carries the
//! moments of the distribution over blocks that the bands are a summary of.
//!
//! What a weight is, and how two are blended, is the caller's: the store places
//! weights in bands, blends them band by band, and keeps count of what is alive.

use std::rc::Rc;

use vstd::prelude::*;
use vstd::string::*;

use crate::colorset::larger;
use crate::handles::{
    are_firsts, count_handles, first_handles, is_answer, is_second, is_told, second_handle, tell,
};
use crate::text::{dec, push_dec, push_wide};
use crate::walk::{word, word_adds};

verus! {

/// One past the largest block id in the 2022 chain, which is what the width of a
/// band is measured against unless a run says otherwise.
pub const CHAIN_BLOCKS: usize = 762_261;

/// How many bands, and how many blocks each covers.
#[derive(Clone, Copy, Debug, PartialEq, Eq, Structural)]
pub struct Layout {
    pub bands: usize,
    pub width: usize,
}

/// What is said of a block past those the bands cover.
pub open spec fn past(block: usize, covered: nat) -> Seq<char> {
    "block "@ + dec(block as nat) + " is past the "@ + dec(covered)
        + " blocks the bands cover; pass --blocks"@
}

impl Layout {
    /// There are bands, and they have blocks.
    pub open spec fn sound(self) -> bool {
        self.bands > 0 && self.width > 0
    }

    /// How many blocks the bands cover.
    pub open spec fn covered(self) -> nat {
        (self.bands * self.width) as nat
    }

    /// The band of a block.
    pub open spec fn band_of(self, block: int) -> int {
        block / self.width as int
    }

    /// `bands` bands over `blocks` block ids, the last band possibly short: as
    /// narrow as covers them all.
    pub fn new(bands: usize, blocks: usize) -> (layout: Layout)
        requires
            bands > 0,
            blocks > 0,
        ensures
            layout.sound(),
            layout.bands == bands,
            blocks <= layout.covered(),
            bands * (layout.width - 1) < blocks,
    {
        let whole: usize = blocks / bands;
        proof {
            vstd::arithmetic::div_mod::lemma_fundamental_div_mod(blocks as int, bands as int);
            vstd::arithmetic::div_mod::lemma_mod_bound(blocks as int, bands as int);
        }
        if blocks % bands == 0 {
            proof {
                assert(whole > 0) by (nonlinear_arith)
                    requires
                        blocks == bands * whole,
                        blocks > 0,
                        bands > 0,
                ;
                assert(bands * (whole - 1) < blocks) by (nonlinear_arith)
                    requires
                        blocks == bands * whole,
                        bands > 0,
                ;
            }
            Layout { bands, width: whole }
        } else {
            proof {
                assert(whole < blocks || blocks == 1) by (nonlinear_arith)
                    requires
                        blocks == bands * whole + blocks % bands,
                        bands > 0,
                        blocks % bands > 0,
                        whole >= 0,
                ;
                assert(whole < usize::MAX) by (nonlinear_arith)
                    requires
                        blocks == bands * whole + blocks % bands,
                        bands > 0,
                        blocks % bands > 0,
                        blocks <= usize::MAX,
                ;
                assert(blocks <= bands * (whole + 1)) by (nonlinear_arith)
                    requires
                        blocks == bands * whole + blocks % bands,
                        blocks % bands < bands,
                ;
            }
            Layout { bands, width: whole + 1 }
        }
    }

    /// The band of a block, or what is said of a block past those the bands
    /// cover.
    pub fn place(&self, block: usize) -> (r: Result<usize, String>)
        requires
            self.sound(),
        ensures
            match r {
                Ok(band) => block < self.covered() && band == self.band_of(block as int) && band
                    < self.bands,
                Err(e) => block >= self.covered() && e@ == past(block, self.covered()),
            },
    {
        let band: usize = block / self.width;
        proof {
            bands_part_the_blocks(*self, block as int);
        }
        if band < self.bands {
            Ok(band)
        } else {
            let mut e = "block ".to_owned();
            push_dec(&mut e, block as u64);
            e.append(" is past the ");
            proof {
                assert(self.bands * self.width <= usize::MAX * usize::MAX) by (nonlinear_arith)
                    requires
                        self.bands <= usize::MAX,
                        self.width <= usize::MAX,
                ;
                assert(usize::MAX * usize::MAX <= u128::MAX) by (nonlinear_arith)
                    requires
                        usize::MAX <= 0xffff_ffff_ffff_ffff,
                ;
            }
            push_wide(&mut e, self.bands as u128 * self.width as u128);
            e.append(" blocks the bands cover; pass --blocks");
            Err(e)
        }
    }
}

/// The bands part the blocks they cover: a block is in one of them exactly if it
/// is covered, and band `k` is the blocks from `k` widths on, a width of them.
pub proof fn bands_part_the_blocks(layout: Layout, block: int)
    requires
        layout.sound(),
        block >= 0,
    ensures
        0 <= layout.band_of(block),
        layout.band_of(block) < layout.bands <==> block < layout.covered(),
        layout.band_of(block) * layout.width <= block < (layout.band_of(block) + 1) * layout.width,
{
    let w = layout.width as int;
    let k = layout.band_of(block);
    vstd::arithmetic::div_mod::lemma_fundamental_div_mod(block, w);
    vstd::arithmetic::div_mod::lemma_mod_bound(block, w);
    assert(k >= 0) by {
        vstd::arithmetic::div_mod::lemma_div_pos_is_pos(block, w);
    }
    assert(k * w <= block < (k + 1) * w) by (nonlinear_arith)
        requires
            block == w * k + block % w,
            0 <= block % w < w,
    ;
    if k < layout.bands {
        assert((k + 1) * w <= layout.bands * w) by (nonlinear_arith)
            requires
                k + 1 <= layout.bands,
                w > 0,
        ;
    } else {
        assert(layout.bands * w <= k * w) by (nonlinear_arith)
            requires
                layout.bands <= k,
                w > 0,
        ;
    }
}

/// The weight a distribution over blocks has in a band: the sum of its weights
/// there.
pub open spec fn binned(weights: Seq<int>, layout: Layout, band: int) -> int
    decreases weights.len(),
{
    if weights.len() == 0 {
        0
    } else {
        binned(weights.drop_last(), layout, band) + if layout.band_of(weights.len() - 1) == band {
            weights.last()
        } else {
            0
        }
    }
}

/// Two distributions over blocks, each with a weight of its own, put together.
pub open spec fn mixed(a: Seq<int>, wa: int, b: Seq<int>, wb: int) -> Seq<int> {
    Seq::new(a.len(), |i: int| wa * a[i] + wb * b[i])
}

/// Binning is linear: the bands of a mixture are the mixture of the bands, so
/// mixing binned colours is binning the mixed colour.
pub proof fn binning_is_linear(
    a: Seq<int>,
    wa: int,
    b: Seq<int>,
    wb: int,
    layout: Layout,
    band: int,
)
    requires
        a.len() == b.len(),
    ensures
        binned(mixed(a, wa, b, wb), layout, band) == wa * binned(a, layout, band) + wb * binned(
            b,
            layout,
            band,
        ),
    decreases a.len(),
{
    let m = mixed(a, wa, b, wb);
    if a.len() > 0 {
        let (fa, fb) = (a.drop_last(), b.drop_last());
        binning_is_linear(fa, wa, fb, wb, layout, band);
        assert(m.drop_last() =~= mixed(fa, wa, fb, wb));
        let (x, y) = (binned(fa, layout, band), binned(fb, layout, band));
        let (p, q) = (a.last(), b.last());
        assert(wa * (x + p) + wb * (y + q) == (wa * x + wb * y) + (wa * p + wb * q))
            by (nonlinear_arith);
    }
}

/// All of one block, of `n`.
pub open spec fn point(n: nat, block: int) -> Seq<int> {
    Seq::new(
        n,
        |i: int|
            if i == block {
                1int
            } else {
                0
            },
    )
}

/// A coinbase is all of its band: the block that minted it, binned, is one in its
/// band and nothing in any other.
pub proof fn a_point_is_all_of_its_band(n: nat, block: int, layout: Layout, band: int)
    requires
        0 <= block < n,
    ensures
        binned(point(n, block), layout, band) == if layout.band_of(block) == band {
            1int
        } else {
            0
        },
    decreases n,
{
    let p = point(n, block);
    if block == n - 1 {
        nothing_is_binned(p.drop_last(), layout, band);
    } else {
        assert(p.drop_last() =~= point((n - 1) as nat, block));
        a_point_is_all_of_its_band((n - 1) as nat, block, layout, band);
    }
}

proof fn nothing_is_binned(weights: Seq<int>, layout: Layout, band: int)
    requires
        forall|i: int| 0 <= i < weights.len() ==> #[trigger] weights[i] == 0,
    ensures
        binned(weights, layout, band) == 0,
    decreases weights.len(),
{
    if weights.len() > 0 {
        nothing_is_binned(weights.drop_last(), layout, band);
    }
}

/// A colour: a weight for every band, and beside them the moments of the
/// distribution over blocks.
pub struct Tinted<T, M> {
    pub bands: Vec<T>,
    pub moments: M,
}

/// A handle on a colour.
pub type Color<T, M> = Rc<Tinted<T, M>>;

/// The weights of a coinbase: `one` in its band and `zero` in the others.
pub open spec fn minted<T>(bands: nat, band: int, zero: T, one: T) -> Seq<T> {
    Seq::new(
        bands,
        |k: int|
            if k == band {
                one
            } else {
                zero
            },
    )
}

/// A store of colours over bands: how many are alive, in allocations, and the
/// high-water mark of that.
pub struct BandStore {
    layout: Layout,
    live: usize,
    peak: usize,
}

/// What an audit says of so many live colours, so many of them reachable.
pub open spec fn audit_text(
    live: usize,
    reachable: usize,
    bands: usize,
    lane: Seq<char>,
    drift: Seq<char>,
) -> Seq<char> {
    if reachable == live {
        "audit: "@ + dec(live as nat) + " live colours of "@ + dec(bands as nat) + " "@ + lane
            + " lanes, all reachable"@ + ", worst drift from sum 1 was "@ + drift
    } else {
        "audit: LEAK -- "@ + dec(live as nat) + " live colours but only "@ + dec(reachable as nat)
            + " reachable"@ + ", worst drift from sum 1 was "@ + drift
    }
}

/// How many of the handles are the first on their allocation.
pub open spec fn firsts(first: Seq<bool>) -> nat
    decreases first.len(),
{
    if first.len() == 0 {
        0
    } else {
        firsts(first.drop_last()) + if first.last() {
            1nat
        } else {
            0
        }
    }
}

impl BandStore {
    /// How the bands are laid out.
    pub closed spec fn plan(&self) -> Layout {
        self.layout
    }

    /// How many colours are alive.
    pub closed spec fn live(&self) -> usize {
        self.live
    }

    /// How many were, at most.
    pub closed spec fn peak(&self) -> usize {
        self.peak
    }

    #[verifier::type_invariant]
    spec fn laid_out(self) -> bool {
        self.layout.sound()
    }

    /// One more colour is alive.
    pub open spec fn counted(before: &BandStore, after: &BandStore) -> bool {
        &&& after.plan() == before.plan()
        &&& after.live() == word((before.live() + 1) as nat)
        &&& after.peak() == larger(before.peak(), after.live())
    }

    /// An empty store.
    pub fn new(layout: Layout) -> (store: BandStore)
        requires
            layout.sound(),
        ensures
            store.plan() == layout,
            store.live() == 0,
            store.peak() == 0,
    {
        BandStore { layout, live: 0, peak: 0 }
    }

    /// How the bands are laid out.
    pub fn layout(&self) -> (layout: Layout)
        ensures
            layout == self.plan(),
            layout.sound(),
    {
        proof {
            use_type_invariant(&*self);
        }
        self.layout
    }

    fn track<T, M>(&mut self, color: Tinted<T, M>) -> (handle: Color<T, M>)
        ensures
            *handle == color,
            BandStore::counted(old(self), final(self)),
    {
        proof {
            use_type_invariant(&*self);
            vstd::arithmetic::div_mod::lemma_small_mod(self.live as nat, usize::MAX as nat + 1);
            word_adds(self.live as nat, 1);
        }
        let live: usize = self.live.wrapping_add(1);
        let peak: usize = if self.peak < live {
            live
        } else {
            self.peak
        };
        *self = BandStore { layout: self.layout, live, peak };
        Rc::new(color)
    }

    /// The colour of a coinbase: all of the weight in the band of the block that
    /// minted it.
    pub fn singleton<T: Copy, M>(&mut self, block: usize, zero: T, one: T, moments: M) -> (color:
        Color<T, M>)
        requires
            block < old(self).plan().covered(),
        ensures
            color.bands@ == minted(
                old(self).plan().bands as nat,
                old(self).plan().band_of(block as int),
                zero,
                one,
            ),
            color.moments == moments,
            BandStore::counted(old(self), final(self)),
    {
        proof {
            use_type_invariant(&*self);
            bands_part_the_blocks(self.layout, block as int);
        }
        let layout = self.layout;
        let band: usize = block / layout.width;
        let mut bands: Vec<T> = Vec::with_capacity(layout.bands);
        let mut k: usize = 0;
        while k < layout.bands
            invariant
                k <= layout.bands,
                bands@ == minted(k as nat, band as int, zero, one),
            decreases layout.bands - k,
        {
            bands.push(
                if k == band {
                    one
                } else {
                    zero
                },
            );
            k += 1;
            assert(bands@ =~= minted(k as nat, band as int, zero, one));
        }
        self.track(Tinted { bands, moments })
    }

    /// Two colours blended band by band.
    pub fn blend<T: Copy, M, F: Fn(T, T) -> T>(
        &mut self,
        a: &Color<T, M>,
        b: &Color<T, M>,
        lanes: F,
        moments: M,
    ) -> (color: Color<T, M>)
        requires
            a.bands@.len() == b.bands@.len(),
            forall|x: T, y: T| lanes.requires((x, y)),
        ensures
            color.bands@.len() == a.bands@.len(),
            forall|k: int|
                0 <= k < color.bands@.len() ==> lanes.ensures(
                    (a.bands@[k], b.bands@[k]),
                    #[trigger] color.bands@[k],
                ),
            color.moments == moments,
            BandStore::counted(old(self), final(self)),
    {
        let n: usize = a.bands.len();
        let mut bands: Vec<T> = Vec::with_capacity(n);
        let mut k: usize = 0;
        while k < n
            invariant
                k <= n,
                n == a.bands@.len() == b.bands@.len(),
                bands@.len() == k,
                forall|x: T, y: T| lanes.requires((x, y)),
                forall|j: int|
                    0 <= j < k ==> lanes.ensures((a.bands@[j], b.bands@[j]), #[trigger] bands@[j]),
            decreases n - k,
        {
            let lane = lanes(a.bands[k], b.bands[k]);
            bands.push(lane);
            k += 1;
        }
        self.track(Tinted { bands, moments })
    }

    /// A colour scaled band by band, told whether the weight is one: a weight of
    /// one changes nothing, and the colour is shared.
    pub fn scale<T: Copy, M, F: Fn(T) -> T>(
        &mut self,
        color: &Color<T, M>,
        whole: bool,
        lanes: F,
        moments: M,
    ) -> (scaled: Color<T, M>)
        requires
            forall|x: T| lanes.requires((x,)),
        ensures
            whole ==> is_second(*color, scaled) && scaled == *color && *final(self) == *old(self),
            !whole ==> {
                &&& scaled.bands@.len() == color.bands@.len()
                &&& forall|k: int|
                    0 <= k < scaled.bands@.len() ==> lanes.ensures(
                        (color.bands@[k],),
                        #[trigger] scaled.bands@[k],
                    )
                &&& scaled.moments == moments
                &&& BandStore::counted(old(self), final(self))
            },
    {
        if whole {
            return self.share(color);
        }
        let n: usize = color.bands.len();
        let mut bands: Vec<T> = Vec::with_capacity(n);
        let mut k: usize = 0;
        while k < n
            invariant
                k <= n,
                n == color.bands@.len(),
                bands@.len() == k,
                forall|x: T| lanes.requires((x,)),
                forall|j: int|
                    0 <= j < k ==> lanes.ensures((color.bands@[j],), #[trigger] bands@[j]),
            decreases n - k,
        {
            let lane = lanes(color.bands[k]);
            bands.push(lane);
            k += 1;
        }
        self.track(Tinted { bands, moments })
    }

    /// Two colours put together, told whether they are two handles on one
    /// allocation: then it is one of them scaled by the sum of the weights, or a
    /// second handle on it where that is one, and otherwise a blend of the two.
    pub open spec fn put_together<T, M, F: Fn(T) -> T, G: Fn(T, T) -> T>(
        before: &BandStore,
        after: &BandStore,
        a: Color<T, M>,
        b: Color<T, M>,
        same: bool,
        whole: bool,
        scaling: F,
        scaled: M,
        blending: G,
        blended: M,
        color: Color<T, M>,
    ) -> bool {
        if same && whole {
            is_second(a, color) && color == a && *after == *before
        } else if same {
            &&& color.bands@.len() == a.bands@.len()
            &&& forall|k: int|
                0 <= k < color.bands@.len() ==> scaling.ensures(
                    (a.bands@[k],),
                    #[trigger] color.bands@[k],
                )
            &&& color.moments == scaled
            &&& BandStore::counted(before, after)
        } else {
            &&& color.bands@.len() == a.bands@.len()
            &&& forall|k: int|
                0 <= k < color.bands@.len() ==> blending.ensures(
                    (a.bands@[k], b.bands@[k]),
                    #[trigger] color.bands@[k],
                )
            &&& color.moments == blended
            &&& BandStore::counted(before, after)
        }
    }

    /// Two colours put together, told whether they are two handles on one
    /// allocation: then it is one colour scaled by the sum of the weights, which
    /// may be one, and otherwise a blend.
    pub fn combine_told<T: Copy, M, F: Fn(T) -> T, G: Fn(T, T) -> T>(
        &mut self,
        a: &Color<T, M>,
        b: &Color<T, M>,
        same: bool,
        whole: bool,
        scaling: F,
        scaled: M,
        blending: G,
        blended: M,
    ) -> (color: Color<T, M>)
        requires
            a.bands@.len() == b.bands@.len(),
            forall|x: T| scaling.requires((x,)),
            forall|x: T, y: T| blending.requires((x, y)),
        ensures
            BandStore::put_together(
                old(self),
                final(self),
                *a,
                *b,
                same,
                whole,
                scaling,
                scaled,
                blending,
                blended,
                color,
            ),
    {
        if same {
            self.scale(a, whole, scaling, scaled)
        } else {
            self.blend(a, b, blending, blended)
        }
    }

    /// Two colours put together: [`BandStore::combine_told`], told what is said of
    /// the two handles.
    pub fn combine<T: Copy, M, F: Fn(T) -> T, G: Fn(T, T) -> T>(
        &mut self,
        a: &Color<T, M>,
        b: &Color<T, M>,
        whole: bool,
        scaling: F,
        scaled: M,
        blending: G,
        blended: M,
    ) -> (color: Color<T, M>)
        requires
            a.bands@.len() == b.bands@.len(),
            forall|x: T| scaling.requires((x,)),
            forall|x: T, y: T| blending.requires((x, y)),
        ensures
            color.bands@.len() == a.bands@.len(),
            exists|same: bool| #[trigger]
                is_told(*a, *b, same) && (same ==> *a == *b) && BandStore::put_together(
                    old(self),
                    final(self),
                    *a,
                    *b,
                    same,
                    whole,
                    scaling,
                    scaled,
                    blending,
                    blended,
                    color,
                ),
    {
        let same = tell(a, b);
        self.combine_told(a, b, same, whole, scaling, scaled, blending, blended)
    }

    /// A second handle on a colour, which owns no new storage.
    pub fn share<T, M>(&mut self, color: &Color<T, M>) -> (handle: Color<T, M>)
        ensures
            is_second(*color, handle),
            handle == *color,
            *final(self) == *old(self),
    {
        second_handle(color)
    }

    /// Takes a colour off the count, told whether its last handle is going.
    pub fn release_told(&mut self, last: bool)
        ensures
            final(self).live() == if last {
                old(self).live().wrapping_sub(1)
            } else {
                old(self).live()
            },
            final(self).peak() == old(self).peak(),
            final(self).plan() == old(self).plan(),
    {
        proof {
            use_type_invariant(&*self);
        }
        if last {
            let live: usize = self.live.wrapping_sub(1);
            *self = BandStore { layout: self.layout, live, peak: self.peak };
        }
    }

    /// Lets go of a handle on a colour. The allocation only goes away when the
    /// last handle does, and then it comes off the count: where the answer to how
    /// many handles there are is one.
    pub fn release<T, M>(&mut self, color: Color<T, M>)
        ensures
            exists|n: usize| #[trigger]
                is_answer(color, n) && n >= 1 && final(self).live() == if n == 1 {
                    old(self).live().wrapping_sub(1)
                } else {
                    old(self).live()
                },
            final(self).peak() == old(self).peak(),
            final(self).plan() == old(self).plan(),
    {
        let last = count_handles(&color) == 1;
        self.release_told(last);
    }

    /// The bands of a colour that are not empty, highest first, each with its
    /// weight.
    pub fn terms<T: Copy, M, Z: Fn(T) -> bool>(&self, color: &Color<T, M>, empty: Z) -> (terms: Vec<
        (usize, T),
    >)
        requires
            forall|x: T| empty.requires((x,)),
        ensures
            forall|i: int|
                0 <= i < terms@.len() ==> {
                    &&& (#[trigger] terms@[i]).0 < color.bands@.len()
                    &&& terms@[i].1 == color.bands@[terms@[i].0 as int]
                    &&& empty.ensures((terms@[i].1,), false)
                },
            forall|i: int, j: int|
                0 <= i < j < terms@.len() ==> (#[trigger] terms@[i]).0 > (#[trigger] terms@[j]).0,
            forall|k: int|
                #![trigger color.bands@[k]]
                0 <= k < color.bands@.len() ==> empty.ensures((color.bands@[k],), true) || exists|
                    i: int,
                |
                    0 <= i < terms@.len() && (#[trigger] terms@[i]).0 == k,
    {
        let mut terms: Vec<(usize, T)> = Vec::new();
        let mut at: usize = color.bands.len();
        while at > 0
            invariant
                at <= color.bands@.len(),
                forall|x: T| empty.requires((x,)),
                forall|i: int|
                    0 <= i < terms@.len() ==> {
                        &&& at <= (#[trigger] terms@[i]).0 < color.bands@.len()
                        &&& terms@[i].1 == color.bands@[terms@[i].0 as int]
                        &&& empty.ensures((terms@[i].1,), false)
                    },
                forall|i: int, j: int|
                    0 <= i < j < terms@.len() ==> (#[trigger] terms@[i]).0 > (
                    #[trigger] terms@[j]).0,
                forall|k: int|
                    #![trigger color.bands@[k]]
                    at <= k < color.bands@.len() ==> empty.ensures((color.bands@[k],), true)
                        || exists|i: int| 0 <= i < terms@.len() && (#[trigger] terms@[i]).0 == k,
            decreases at,
        {
            at -= 1;
            let weight = color.bands[at];
            let ghost before = terms@;
            if !empty(weight) {
                terms.push((at, weight));
                assert(terms@[before.len() as int].0 == at);
            }
            assert forall|k: int|
                #![trigger color.bands@[k]]
                at <= k < color.bands@.len() implies empty.ensures((color.bands@[k],), true)
                || exists|i: int| 0 <= i < terms@.len() && (#[trigger] terms@[i]).0 == k by {
                if k > at && !empty.ensures((color.bands@[k],), true) {
                    let i = choose|i: int| 0 <= i < before.len() && (#[trigger] before[i]).0 == k;
                    assert(terms@[i] == before[i]);
                }
            }
        }
        terms
    }

    /// How many lanes are live, and how many were at most.
    pub fn usage(&self) -> (usage: (usize, usize))
        ensures
            usage.0 == word((self.live() * self.plan().bands) as nat),
            usage.1 == word((self.peak() * self.plan().bands) as nat),
    {
        let bands: u128 = self.layout.bands as u128;
        proof {
            products_fit(self.live, self.layout.bands);
            products_fit(self.peak, self.layout.bands);
        }
        let live: u128 = self.live as u128 * bands;
        let peak: u128 = self.peak as u128 * bands;
        let size: u128 = usize::MAX as u128 + 1;
        ((live % size) as usize, (peak % size) as usize)
    }

    /// What the two counts of [`BandStore::usage`] are of.
    pub fn usage_labels(&self) -> (labels: (&'static str, &'static str))
        ensures
            labels.0@ == "live lanes"@,
            labels.1@ == "peak lanes"@,
    {
        ("live lanes", "peak lanes")
    }

    /// What an audit that reached so many colours says; `lane` is what a lane is
    /// called, and `drift` how far a sum of weights was from one at worst.
    pub fn audit_told(&self, reachable: usize, lane: &str, drift: &str) -> (s: String)
        ensures
            s@ == audit_text(self.live(), reachable, self.plan().bands, lane@, drift@),
    {
        let mut s = if reachable == self.live {
            let mut s = "audit: ".to_owned();
            push_dec(&mut s, self.live as u64);
            s.append(" live colours of ");
            push_dec(&mut s, self.layout.bands as u64);
            s.append(" ");
            s.append(lane);
            s.append(" lanes, all reachable");
            s
        } else {
            let mut s = "audit: LEAK -- ".to_owned();
            push_dec(&mut s, self.live as u64);
            s.append(" live colours but only ");
            push_dec(&mut s, reachable as u64);
            s.append(" reachable");
            s
        };
        s.append(", worst drift from sum 1 was ");
        s.append(drift);
        s
    }

    /// Whether every live colour is reachable from the handles in hand, each
    /// allocation counted once however many handles are on it: only the first
    /// handle on each counts.
    pub fn audit<T, M>(&self, colors: &Vec<Color<T, M>>, lane: &str, drift: &str) -> (s: String)
        ensures
            exists|first: Seq<bool>|
                #![trigger firsts(first)]
                {
                    &&& are_firsts(colors@, first)
                    &&& s@ == audit_text(
                        self.live(),
                        firsts(first) as usize,
                        self.plan().bands,
                        lane@,
                        drift@,
                    )
                },
    {
        let first = first_handles(colors);
        let mut reachable: usize = 0;
        let mut i: usize = 0;
        while i < first.len()
            invariant
                reachable <= i <= first@.len(),
                reachable == firsts(first@.take(i as int)),
            decreases first@.len() - i,
        {
            assert(first@.take(i + 1).drop_last() =~= first@.take(i as int));
            if first[i] {
                reachable += 1;
            }
            i += 1;
        }
        assert(first@.take(first@.len() as int) =~= first@);
        self.audit_told(reachable, lane, drift)
    }
}

proof fn products_fit(a: usize, b: usize)
    ensures
        0 <= a * b <= u128::MAX,
{
    assert(0 <= a * b <= usize::MAX * usize::MAX) by (nonlinear_arith)
        requires
            0 <= a <= usize::MAX,
            0 <= b <= usize::MAX,
    ;
    assert(usize::MAX * usize::MAX <= u128::MAX) by (nonlinear_arith)
        requires
            0 <= usize::MAX <= 0xffff_ffff_ffff_ffff,
    ;
}

} // verus!
