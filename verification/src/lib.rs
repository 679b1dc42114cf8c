//! Color quantization: reduce a true-color image to a bounded palette and
//! remap every pixel to the index of its nearest palette entry.
//!
//! The pipeline is: pixel buffer -> histogram (unique colors, frequency
//! sorted) -> palette selection (greedy tolerance selection, adaptive
//! tolerance search, or k-means) -> a dense lookup table from 24-bit color
//! to palette index -> per-pixel remapping.
//!
//! All color arithmetic is exact: the perceptual metrics are integer valued
//! (see [`difference`]) and tolerances are integer milli-percents of a
//! metric's documented range, so every selection run is reproducible.

use vstd::prelude::*;
use vstd::slice::slice_index_get;

pub mod color;
pub mod difference;
pub mod histogram;
pub mod nih_kmeans;
pub mod selection;
pub mod timefmt;

pub use color::Color;
pub use color::color_index;
pub use timefmt::human_time;
use difference::DifferenceFn;
use vstd::pervasive::VecAdditionalExecFns;

verus! {

/// The errors the library reports. All failures are local and synchronous.
#[derive(Clone, Copy, PartialEq, Eq, Structural, Debug)]
pub enum SquashError {
    /// A configuration value is zero or out of its documented range.
    InvalidConfig,
    /// A pixel byte buffer's length is not a multiple of three.
    MalformedBuffer,
    /// A caller-supplied output buffer cannot hold one index per pixel.
    BufferTooSmall,
}

/// A decoded image as the outside decoders hand it over: row-major RGB
/// bytes, three per pixel.
pub struct Image {
    pub width: usize,
    pub height: usize,
    pub data: Vec<u8>,
}

/// The colors a flat RGB byte sequence spells out, one per byte triple.
pub open spec fn colors_of_bytes(bytes: Seq<u8>) -> Seq<Color> {
    Seq::new(
        (bytes.len() / 3) as nat,
        |i: int| Color { r: bytes[3 * i], g: bytes[3 * i + 1], b: bytes[3 * i + 2] },
    )
}

/// A borrowed pixel buffer, decoded into exact color triples.
pub struct ImageData(pub Vec<Color>);

impl ImageData {
    /// Reads a flat RGB byte buffer, three bytes per pixel in row-major
    /// order. Rejected with [`SquashError::MalformedBuffer`] exactly when
    /// the length is not a multiple of three.
    pub fn from_rgb_bytes(bytes: &[u8]) -> (r: Result<ImageData, SquashError>)
        ensures
            r is Err <==> bytes@.len() % 3 != 0,
            r matches Err(e) ==> e == SquashError::MalformedBuffer,
            r matches Ok(d) ==> d.0@ == colors_of_bytes(bytes@),
    {
        let n = bytes.len();
        if n % 3 != 0 {
            return Err(SquashError::MalformedBuffer);
        }
        let mut pixels: Vec<Color> = Vec::new();
        let count = n / 3;
        let mut i: usize = 0;
        while i < count
            invariant
                n == bytes@.len(),
                n % 3 == 0,
                count == n / 3,
                i <= count,
                pixels@.len() == i,
                forall|k: int| 0 <= k < i ==> pixels@[k] == colors_of_bytes(bytes@)[k],
            decreases count - i,
        {
            let c = Color {
                r: *slice_index_get(bytes, 3 * i),
                g: *slice_index_get(bytes, 3 * i + 1),
                b: *slice_index_get(bytes, 3 * i + 2),
            };
            pixels.push(c);
            i = i + 1;
        }
        proof {
            assert(pixels@ =~= colors_of_bytes(bytes@));
        }
        Ok(ImageData(pixels))
    }

    /// Wraps an already-decoded color buffer.
    pub fn from_colors(colors: Vec<Color>) -> (r: ImageData)
        ensures
            r.0@ == colors@,
    {
        ImageData(colors)
    }
}

impl From<Vec<Color>> for ImageData {
    fn from(colors: Vec<Color>) -> (r: ImageData) {
        ImageData(colors)
    }
}

impl vstd::std_specs::convert::FromSpecImpl<Vec<Color>> for ImageData {
    open spec fn obeys_from_spec() -> bool {
        true
    }

    open spec fn from_spec(colors: Vec<Color>) -> ImageData {
        ImageData(colors)
    }
}

} // verus!

verus! {

/// An unsigned integer type wide enough to index a palette: the element
/// type of the color lookup table and of emitted index buffers.
pub trait Count: Copy + Sized {
    /// The integer value this index carries.
    spec fn sval(&self) -> int;

    /// The greatest value the type can carry.
    spec fn max_value() -> int;

    /// Every value lies between zero and the type's maximum.
    proof fn lemma_bounds(&self)
        ensures
            0 <= self.sval() <= Self::max_value(),
    ;

    /// Every index type can carry at least one byte's worth of indices.
    proof fn lemma_max_value()
        ensures
            Self::max_value() >= 255,
    ;

    /// The zero index: the lookup table's initial filler.
    fn zero() -> (r: Self)
        ensures
            r.sval() == 0,
    ;

    /// This index as a usize.
    fn as_usize(&self) -> (r: usize)
        requires
            self.sval() <= usize::MAX,
        ensures
            r == self.sval(),
    ;

    /// The index carrying `from`, which truncates like an `as` cast when
    /// `from` does not fit.
    fn from_usize(from: usize) -> (r: Self)
        ensures
            from <= Self::max_value() ==> r.sval() == from,
    ;

    /// Whether this index is at most `rhs`.
    fn le(&self, rhs: &usize) -> (r: bool)
        ensures
            r == (self.sval() <= *rhs),
    ;
}

impl Count for u8 {
    open spec fn sval(&self) -> int {
        *self as int
    }

    open spec fn max_value() -> int {
        u8::MAX as int
    }

    proof fn lemma_bounds(&self) {
    }

    proof fn lemma_max_value() {
    }

    fn zero() -> (r: Self) {
        0
    }

    fn as_usize(&self) -> (r: usize) {
        *self as usize
    }

    fn from_usize(from: usize) -> (r: Self) {
        #[verifier::truncate] (from as u8)
    }

    fn le(&self, rhs: &usize) -> (r: bool) {
        (*self as usize) <= *rhs
    }
}

impl Count for u16 {
    open spec fn sval(&self) -> int {
        *self as int
    }

    open spec fn max_value() -> int {
        u16::MAX as int
    }

    proof fn lemma_bounds(&self) {
    }

    proof fn lemma_max_value() {
    }

    fn zero() -> (r: Self) {
        0
    }

    fn as_usize(&self) -> (r: usize) {
        *self as usize
    }

    fn from_usize(from: usize) -> (r: Self) {
        #[verifier::truncate] (from as u16)
    }

    fn le(&self, rhs: &usize) -> (r: bool) {
        (*self as usize) <= *rhs
    }
}

impl Count for u32 {
    open spec fn sval(&self) -> int {
        *self as int
    }

    open spec fn max_value() -> int {
        u32::MAX as int
    }

    proof fn lemma_bounds(&self) {
    }

    proof fn lemma_max_value() {
    }

    fn zero() -> (r: Self) {
        0
    }

    fn as_usize(&self) -> (r: usize) {
        *self as usize
    }

    fn from_usize(from: usize) -> (r: Self) {
        #[verifier::truncate] (from as u32)
    }

    fn le(&self, rhs: &usize) -> (r: bool) {
        (*self as usize) <= *rhs
    }
}

impl Count for u64 {
    open spec fn sval(&self) -> int {
        *self as int
    }

    open spec fn max_value() -> int {
        u64::MAX as int
    }

    proof fn lemma_bounds(&self) {
    }

    proof fn lemma_max_value() {
    }

    fn zero() -> (r: Self) {
        0
    }

    fn as_usize(&self) -> (r: usize) {
        #[verifier::truncate] (*self as usize)
    }

    fn from_usize(from: usize) -> (r: Self) {
        from as u64
    }

    fn le(&self, rhs: &usize) -> (r: bool) {
        *self <= (*rhs as u64)
    }
}

impl Count for usize {
    open spec fn sval(&self) -> int {
        *self as int
    }

    open spec fn max_value() -> int {
        usize::MAX as int
    }

    proof fn lemma_bounds(&self) {
    }

    proof fn lemma_max_value() {
    }

    fn zero() -> (r: Self) {
        0
    }

    fn as_usize(&self) -> (r: usize) {
        *self
    }

    fn from_usize(from: usize) -> (r: Self) {
        from
    }

    fn le(&self, rhs: &usize) -> (r: bool) {
        *self <= *rhs
    }
}

} // verus!

verus! {

/// The flattened byte form of a palette: three bytes per entry, R, G, B,
/// in palette order.
pub open spec fn palette_bytes_spec(pal: Seq<Color>) -> Seq<u8> {
    Seq::new(
        (pal.len() * 3) as nat,
        |i: int|
            if i % 3 == 0 {
                pal[i / 3].r
            } else if i % 3 == 1 {
                pal[i / 3].g
            } else {
                pal[i / 3].b
            },
    )
}

/// The quantizer: owns a palette, a dense color lookup table, a metric and
/// a tolerance; builds palettes from sample images and remaps pixel buffers
/// to palette indices.
///
/// The lookup table has one entry per 24-bit color. An entry is valid only
/// for the palette it was populated against; selecting a new palette resets
/// the whole table to zero, so no stale index from an earlier palette ever
/// survives a `recolor`.
pub struct Squasher<T: Count> {
    /// One less than the palette size bound: a zero-color image cannot occur.
    max_colours_min1: T,
    palette: Vec<Color>,
    table: Vec<T>,
    difference_fn: DifferenceFn,
    tolerance_milli: u32,
}

impl<T: Count> Squasher<T> {
    /// The palette this squasher currently works from.
    pub closed spec fn palette_view(&self) -> Seq<Color> {
        self.palette@
    }

    /// The palette size bound: one more than the configured `max_colours_min1`.
    pub closed spec fn max_colours(&self) -> int {
        self.max_colours_min1.sval() + 1
    }

    /// The metric pixels and palette entries are compared with.
    pub closed spec fn metric(&self) -> DifferenceFn {
        self.difference_fn
    }

    /// The greedy selection tolerance, in milli-percent of the metric range.
    pub closed spec fn tolerance(&self) -> int {
        self.tolerance_milli as int
    }

    /// The lookup table's entry for a color.
    pub closed spec fn table_entry(&self, c: Color) -> int {
        self.table@[color::color_code(c)].sval()
    }

    /// Whether every lookup-table entry is the zero index.
    pub closed spec fn table_zeroed(&self) -> bool {
        forall|i: int| 0 <= i < self.table@.len() ==> (#[trigger] self.table@[i]).sval() == 0
    }

    /// The configuration's well-formedness: the table is fully allocated
    /// and the palette bound fits both the index type and a usize.
    pub closed spec fn config_wf(&self) -> bool {
        &&& self.table@.len() == color::TABLE_SIZE
        &&& self.max_colours() <= T::max_value() + 1
        &&& self.max_colours() <= usize::MAX
    }

    /// Well-formedness: the configuration is sound, the palette holds
    /// between one color and the bound, and every table entry indexes into
    /// the palette.
    pub closed spec fn wf(&self) -> bool {
        &&& self.config_wf()
        &&& 1 <= self.palette@.len() <= self.max_colours()
        &&& forall|i: int|
            0 <= i < self.table@.len() ==> 0 <= (#[trigger] self.table@[i]).sval()
                < self.palette@.len()
    }

    /// Allocate a squasher with an empty palette and a zeroed table.
    fn from_parts(max_colours_min1: T, difference_fn: DifferenceFn, tolerance_milli: u32) -> (r:
        Squasher<T>)
        requires
            max_colours_min1.sval() < usize::MAX,
        ensures
            r.config_wf(),
            r.palette_view().len() == 0,
            r.max_colours() == max_colours_min1.sval() + 1,
            r.metric() == difference_fn,
            r.tolerance() == tolerance_milli as int,
            r.table_zeroed(),
            forall|c: Color| #[trigger] r.table_entry(c) == 0,
    {
        let mut table: Vec<T> = Vec::new();
        let mut i: usize = 0;
        while i < color::TABLE_SIZE
            invariant
                i <= color::TABLE_SIZE,
                table@.len() == i,
                forall|k: int| 0 <= k < i ==> (#[trigger] table@[k]).sval() == 0,
            decreases color::TABLE_SIZE - i,
        {
            table.push(T::zero());
            i = i + 1;
        }
        proof {
            max_colours_min1.lemma_bounds();
        }
        Squasher {
            max_colours_min1,
            palette: Vec::new(),
            table,
            difference_fn,
            tolerance_milli,
        }
    }

    /// Creates a new squasher with the default metric and tolerance and
    /// selects a palette from the given image. The lookup table covers
    /// every 24-bit color, so it takes `16M * size_of::<T>()` bytes.
    pub fn new(max_colors_minus_one: T, image: &ImageData) -> (r: Squasher<T>)
        requires
            max_colors_minus_one.sval() < usize::MAX,
            image.0@.len() >= 1,
        ensures
            r.wf(),
            1 <= r.palette_view().len() <= r.max_colours(),
            r.max_colours() == max_colors_minus_one.sval() + 1,
            r.metric() == DifferenceFn::Rgb,
            r.tolerance() == 1000,
            r.palette_view() == selection::greedy_palette(
                DifferenceFn::Rgb,
                1000,
                max_colors_minus_one.sval() + 1,
                image.0@,
            ),
            forall|c: Color| #[trigger] r.table_entry(c) == 0,
    {
        let mut this = Self::from_parts(max_colors_minus_one, DifferenceFn::Rgb, 1000);
        this.recolor(image);
        this
    }

    /// Build a squasher around a ready-made palette (for instance one a
    /// [`selection::Selector`] chose), with a fresh lookup table. Fails
    /// with [`SquashError::InvalidConfig`] exactly when the palette is
    /// empty or longer than the size bound allows.
    pub fn from_palette(
        max_colors_minus_one: T,
        palette: Vec<Color>,
        difference_fn: DifferenceFn,
    ) -> (r: Result<Squasher<T>, SquashError>)
        requires
            max_colors_minus_one.sval() < usize::MAX,
        ensures
            r is Err <==> !(1 <= palette@.len() <= max_colors_minus_one.sval() + 1),
            r matches Err(e) ==> e == SquashError::InvalidConfig,
            r matches Ok(s) ==> {
                &&& s.wf()
                &&& s.palette_view() == palette@
                &&& s.max_colours() == max_colors_minus_one.sval() + 1
                &&& s.metric() == difference_fn
                &&& forall|c: Color| #[trigger] s.table_entry(c) == 0
            },
    {
        proof {
            max_colors_minus_one.lemma_bounds();
        }
        let bound = max_colors_minus_one.as_usize();
        if palette.len() == 0 || palette.len() - 1 > bound {
            return Err(SquashError::InvalidConfig);
        }
        let mut this = Self::from_parts(max_colors_minus_one, difference_fn, 1000);
        this.palette = palette;
        Ok(this)
    }

    /// A builder with the default configuration.
    pub fn builder() -> (r: SquasherBuilder<T>)
        ensures
            r.max_colours.sval() == 255,
            r.difference_fn == DifferenceFn::Rgb,
            r.tolerance_milli == 1000,
    {
        SquasherBuilder::new()
    }

    /// Replace the greedy selection tolerance, in milli-percent of the
    /// metric range.
    pub fn set_tolerance(&mut self, tolerance_milli: u32)
        ensures
            final(self).tolerance() == tolerance_milli as int,
            final(self).palette_view() == old(self).palette_view(),
            final(self).max_colours() == old(self).max_colours(),
            final(self).metric() == old(self).metric(),
            forall|c: Color| #[trigger] final(self).table_entry(c) == old(self).table_entry(c),
            old(self).wf() ==> final(self).wf(),
            old(self).config_wf() ==> final(self).config_wf(),
    {
        self.tolerance_milli = tolerance_milli;
    }

    /// Create a new palette from the colors of the given image, discarding
    /// the previous palette and resetting the lookup table.
    pub fn recolor(&mut self, image: &ImageData)
        requires
            old(self).config_wf(),
            image.0@.len() >= 1,
        ensures
            final(self).wf(),
            1 <= final(self).palette_view().len() <= final(self).max_colours(),
            final(self).palette_view() == selection::greedy_palette(
                old(self).metric(),
                old(self).tolerance(),
                old(self).max_colours(),
                image.0@,
            ),
            final(self).max_colours() == old(self).max_colours(),
            final(self).metric() == old(self).metric(),
            final(self).tolerance() == old(self).tolerance(),
            forall|c: Color| #[trigger] final(self).table_entry(c) == 0,
    {
        let sorted = histogram::unique_and_sort(&image.0);
        let selected = self.select_colors(&sorted);
        proof {
            self.max_colours_min1.lemma_bounds();
        }
        self.palette = selected;
        let mut i: usize = 0;
        while i < color::TABLE_SIZE
            invariant
                self.table@.len() == color::TABLE_SIZE,
                i <= color::TABLE_SIZE,
                forall|k: int| 0 <= k < i ==> (#[trigger] self.table@[k]).sval() == 0,
                self.palette@.len() >= 1,
                self.max_colours_min1 == old(self).max_colours_min1,
                self.difference_fn == old(self).difference_fn,
                self.tolerance_milli == old(self).tolerance_milli,
                self.palette@ == selection::greedy_palette(
                    old(self).metric(),
                    old(self).tolerance(),
                    old(self).max_colours(),
                    image.0@,
                ),
                self.palette@.len() <= old(self).max_colours(),
            decreases color::TABLE_SIZE - i,
        {
            self.table.set(i, T::zero());
            i = i + 1;
        }
    }

    /// Pick the palette from a frequency-sorted histogram: the greedy walk
    /// under this squasher's metric, tolerance and size bound.
    fn select_colors(&self, sorted: &Vec<(Color, usize)>) -> (r: Vec<Color>)
        requires
            self.config_wf(),
        ensures
            r@ == selection::select_from(
                self.metric(),
                self.tolerance(),
                self.max_colours(),
                selection::colors_of(sorted@),
                Seq::empty(),
            ),
            r@.len() <= self.max_colours(),
            sorted@.len() >= 1 ==> r@.len() >= 1,
    {
        proof {
            self.max_colours_min1.lemma_bounds();
        }
        let max_colours = self.max_colours_min1.as_usize() + 1;
        selection::select_colors_from(
            &self.difference_fn,
            self.tolerance_milli,
            max_colours,
            sorted,
        )
    }

    /// Record, for each histogram color, the palette index nearest to it.
    fn map_selected(&mut self, sorted: &Vec<(Color, usize)>)
        requires
            old(self).wf(),
        ensures
            final(self).wf(),
            final(self).palette_view() == old(self).palette_view(),
            final(self).max_colours() == old(self).max_colours(),
            final(self).metric() == old(self).metric(),
            final(self).tolerance() == old(self).tolerance(),
            forall|k: int|
                0 <= k < sorted@.len() ==> final(self).table_entry((#[trigger] sorted@[k]).0)
                    == selection::nearest_idx(
                    old(self).metric(),
                    old(self).palette_view(),
                    sorted@[k].0,
                ),
            forall|c: Color|
                !has_color(sorted@, c) ==> final(self).table_entry(c) == old(self).table_entry(c),
    {
        let n = sorted.len();
        let mut k: usize = 0;
        while k < n
            invariant
                old(self).wf(),
                self.wf(),
                n == sorted@.len(),
                k <= n,
                self.palette@ == old(self).palette@,
                self.max_colours_min1 == old(self).max_colours_min1,
                self.difference_fn == old(self).difference_fn,
                self.tolerance_milli == old(self).tolerance_milli,
                forall|j: int|
                    0 <= j < k ==> self.table_entry((#[trigger] sorted@[j]).0)
                        == selection::nearest_idx(
                        old(self).metric(),
                        old(self).palette_view(),
                        sorted@[j].0,
                    ),
                forall|c: Color|
                    !has_color(sorted@.take(k as int), c) ==> self.table_entry(c) == old(
                        self,
                    ).table_entry(c),
            decreases n - k,
        {
            let c = sorted[k].0;
            let (idx, _d) = selection::nearest_in_palette(
                &self.difference_fn,
                &self.palette,
                &c,
            );
            proof {
                self.max_colours_min1.lemma_bounds();
                selection::lemma_nearest_props(self.difference_fn, self.palette@, c);
            }
            let entry = T::from_usize(idx);
            let ghost prev = *self;
            let addr = color::color_index(&c);
            self.table.set(addr, entry);
            proof {
                assert forall|cc: Color| cc != c implies self.table_entry(cc) == prev.table_entry(
                    cc,
                ) by {
                    color::lemma_color_code_injective(cc, c);
                }
                assert(sorted@.take(k + 1)[k as int] == sorted@[k as int]);
                assert forall|cc: Color| !has_color(sorted@.take(k + 1), cc) implies
                    self.table_entry(cc) == old(self).table_entry(cc) by {
                    assert forall|j: int| 0 <= j < k implies (#[trigger] sorted@.take(k as int)[j]).0
                        != cc by {
                        assert(sorted@.take(k + 1)[j] == sorted@.take(k as int)[j]);
                    }
                    assert(cc != c);
                }
            }
            k = k + 1;
        }
        proof {
            assert(sorted@.take(n as int) =~= sorted@);
        }
    }

    /// Remap an image to palette indices. Ensures every color of this image
    /// has a fresh lookup-table entry against the current palette, then
    /// writes, for each pixel, the index of its nearest palette entry into
    /// the output buffer. Fails with [`SquashError::BufferTooSmall`] exactly
    /// when the buffer holds fewer entries than the image holds pixels.
    pub fn map(&mut self, image: &ImageData, buffer: &mut Vec<T>) -> (r: Result<(), SquashError>)
        requires
            old(self).wf(),
        ensures
            final(self).wf(),
            final(self).palette_view() == old(self).palette_view(),
            final(self).max_colours() == old(self).max_colours(),
            final(self).metric() == old(self).metric(),
            final(self).tolerance() == old(self).tolerance(),
            r is Err <==> old(buffer)@.len() < image.0@.len(),
            r matches Err(e) ==> e == SquashError::BufferTooSmall && *final(self) == *old(self)
                && final(buffer)@ == old(buffer)@,
            r is Ok ==> {
                &&& final(buffer)@.len() == old(buffer)@.len()
                &&& forall|i: int|
                    0 <= i < image.0@.len() ==> (#[trigger] final(buffer)@[i]).sval()
                        == selection::nearest_idx(
                        old(self).metric(),
                        old(self).palette_view(),
                        image.0@[i],
                    )
                &&& forall|i: int|
                    0 <= i < image.0@.len() ==> (#[trigger] final(buffer)@[i]).sval() < old(
                        self,
                    ).palette_view().len()
                &&& forall|i: int|
                    image.0@.len() <= i < old(buffer)@.len() ==> #[trigger] final(buffer)@[i]
                        == old(buffer)@[i]
                &&& forall|c: Color|
                    histogram::count_of(image.0@, c) > 0 ==> #[trigger] final(self).table_entry(c)
                        == selection::nearest_idx(
                        old(self).metric(),
                        old(self).palette_view(),
                        c,
                    )
                &&& forall|c: Color|
                    histogram::count_of(image.0@, c) == 0 ==> #[trigger] final(self).table_entry(c)
                        == old(self).table_entry(c)
            },
    {
        if buffer.len() < image.0.len() {
            return Err(SquashError::BufferTooSmall);
        }
        let sorted = histogram::unique_and_sort(&image.0);
        self.map_selected(&sorted);
        proof {
            assert forall|c: Color| histogram::count_of(image.0@, c) > 0 implies
                self.table_entry(c) == selection::nearest_idx(
                old(self).metric(),
                old(self).palette_view(),
                c,
            ) by {
                let k = choose|k: int| 0 <= k < sorted@.len() && (#[trigger] sorted@[k]).0 == c;
            }
            assert forall|c: Color| histogram::count_of(image.0@, c) == 0 implies
                self.table_entry(c) == old(self).table_entry(c) by {
                if has_color(sorted@, c) {
                    let k = choose|k: int| 0 <= k < sorted@.len() && (#[trigger] sorted@[k]).0
                        == c;
                }
            }
        }
        let n = image.0.len();
        let mut i: usize = 0;
        while i < n
            invariant
                self.wf(),
                n == image.0@.len(),
                i <= n,
                n <= buffer@.len(),
                buffer@.len() == old(buffer)@.len(),
                forall|c: Color|
                    histogram::count_of(image.0@, c) > 0 ==> #[trigger] self.table_entry(c)
                        == selection::nearest_idx(
                        old(self).metric(),
                        old(self).palette_view(),
                        c,
                    ),
                self.palette@ == old(self).palette_view(),
                self.difference_fn == old(self).metric(),
                forall|j: int|
                    0 <= j < i ==> (#[trigger] buffer@[j]).sval() == selection::nearest_idx(
                        old(self).metric(),
                        old(self).palette_view(),
                        image.0@[j],
                    ) && buffer@[j].sval() < old(self).palette_view().len(),
                forall|j: int|
                    i <= j < buffer@.len() ==> #[trigger] buffer@[j] == old(buffer)@[j],
            decreases n - i,
        {
            let c = image.0[i];
            proof {
                histogram::lemma_count_of_occurrence(image.0@, c);
                assert(image.0@.contains(c));
                assert(histogram::count_of(image.0@, c) > 0);
            }
            let addr = color::color_index(&c);
            let entry = self.table[addr];
            proof {
                assert(entry.sval() == self.table_entry(c));
                assert(self.table_entry(c) == selection::nearest_idx(
                    old(self).metric(),
                    old(self).palette_view(),
                    c,
                ));
                assert(entry.sval() < self.palette@.len());
            }
            buffer.set(i, entry);
            i = i + 1;
        }
        Ok(())
    }

    /// Remap an image through the lookup table as it stands, without
    /// refreshing it: a color the squasher has not seen since its last
    /// `recolor` comes out as index zero. Fails with
    /// [`SquashError::BufferTooSmall`] exactly when the buffer holds fewer
    /// entries than the image holds pixels.
    pub fn map_no_recolor(&self, image: &ImageData, buffer: &mut Vec<T>) -> (r: Result<
        (),
        SquashError,
    >)
        requires
            self.wf(),
        ensures
            r is Err <==> old(buffer)@.len() < image.0@.len(),
            r matches Err(e) ==> e == SquashError::BufferTooSmall && final(buffer)@ == old(
                buffer,
            )@,
            r is Ok ==> {
                &&& final(buffer)@.len() == old(buffer)@.len()
                &&& forall|i: int|
                    0 <= i < image.0@.len() ==> (#[trigger] final(buffer)@[i]).sval()
                        == self.table_entry(image.0@[i])
                &&& forall|i: int|
                    0 <= i < image.0@.len() ==> (#[trigger] final(buffer)@[i]).sval()
                        < self.palette_view().len()
                &&& forall|i: int|
                    image.0@.len() <= i < old(buffer)@.len() ==> #[trigger] final(buffer)@[i]
                        == old(buffer)@[i]
            },
    {
        if buffer.len() < image.0.len() {
            return Err(SquashError::BufferTooSmall);
        }
        let n = image.0.len();
        let mut i: usize = 0;
        while i < n
            invariant
                self.wf(),
                n == image.0@.len(),
                i <= n,
                n <= buffer@.len(),
                buffer@.len() == old(buffer)@.len(),
                forall|j: int|
                    0 <= j < i ==> (#[trigger] buffer@[j]).sval() == self.table_entry(image.0@[j])
                        && buffer@[j].sval() < self.palette_view().len(),
                forall|j: int|
                    i <= j < buffer@.len() ==> #[trigger] buffer@[j] == old(buffer)@[j],
            decreases n - i,
        {
            let c = image.0[i];
            let addr = color::color_index(&c);
            let entry = self.table[addr];
            buffer.set(i, entry);
            i = i + 1;
        }
        Ok(())
    }

    /// The palette this squasher works from.
    pub fn palette(&self) -> (r: &[Color])
        ensures
            r@ == self.palette_view(),
    {
        self.palette.as_slice()
    }

    /// The palette as flat bytes: three per entry, R, G, B, in order.
    pub fn palette_bytes(&self) -> (r: Vec<u8>)
        ensures
            r@ == palette_bytes_spec(self.palette_view()),
    {
        let n = self.palette.len();
        let mut bytes: Vec<u8> = Vec::new();
        let mut i: usize = 0;
        while i < n
            invariant
                n == self.palette@.len(),
                i <= n,
                bytes@.len() == 3 * i,
                forall|k: int| 0 <= k < 3 * i ==> bytes@[k] == palette_bytes_spec(self.palette@)[k],
            decreases n - i,
        {
            let c = self.palette[i];
            bytes.push(c.r);
            bytes.push(c.g);
            bytes.push(c.b);
            proof {
                assert forall|k: int| 3 * i <= k < 3 * (i + 1) implies bytes@[k]
                    == palette_bytes_spec(self.palette@)[k] by {
                    assert(k / 3 == i && (k % 3 == 0 || k % 3 == 1 || k % 3 == 2));
                }
            }
            i = i + 1;
        }
        proof {
            assert(bytes@ =~= palette_bytes_spec(self.palette@));
        }
        bytes
    }
}

/// Whether any entry carries this color.
pub open spec fn has_color(entries: Seq<(Color, usize)>, c: Color) -> bool {
    exists|k: int| 0 <= k < entries.len() && (#[trigger] entries[k]).0 == c
}

/// Builds a [`Squasher`] from a palette size bound, a metric and a greedy
/// selection tolerance.
pub struct SquasherBuilder<T: Count> {
    /// One less than the palette size bound.
    pub max_colours: T,
    /// The metric colors are compared with.
    pub difference_fn: DifferenceFn,
    /// The greedy tolerance in milli-percent, valid in `1..=100000`.
    pub tolerance_milli: u32,
}

impl<T: Count> SquasherBuilder<T> {
    /// The default configuration: a 256-color palette bound, the linear-sum
    /// metric, one percent tolerance.
    pub fn new() -> (r: SquasherBuilder<T>)
        ensures
            r.max_colours.sval() == 255,
            r.difference_fn == DifferenceFn::Rgb,
            r.tolerance_milli == 1000,
    {
        Self::default()
    }

    /// The max number of colors selected for the palette, minus one:
    /// `max_colors(255)` asks for a 256 color palette.
    pub fn max_colors(self, max_minus_one: T) -> (r: SquasherBuilder<T>)
        ensures
            r.max_colours == max_minus_one,
            r.difference_fn == self.difference_fn,
            r.tolerance_milli == self.tolerance_milli,
    {
        SquasherBuilder { max_colours: max_minus_one, ..self }
    }

    /// The metric to compare colors with.
    pub fn difference(self, difference: DifferenceFn) -> (r: SquasherBuilder<T>)
        ensures
            r.difference_fn == difference,
            r.max_colours == self.max_colours,
            r.tolerance_milli == self.tolerance_milli,
    {
        SquasherBuilder { difference_fn: difference, ..self }
    }

    /// How much colors must differ to both enter the palette, in
    /// milli-percent of the metric's range, valid in `1..=100000`.
    pub fn tolerance(self, tolerance_milli: u32) -> (r: SquasherBuilder<T>)
        ensures
            r.tolerance_milli == tolerance_milli,
            r.max_colours == self.max_colours,
            r.difference_fn == self.difference_fn,
    {
        SquasherBuilder { tolerance_milli, ..self }
    }

    /// Build the squasher and select a palette from the given image.
    /// Fails with [`SquashError::InvalidConfig`] exactly when the tolerance
    /// is zero or above one hundred percent.
    pub fn build(self, image: &ImageData) -> (r: Result<Squasher<T>, SquashError>)
        requires
            self.max_colours.sval() < usize::MAX,
            image.0@.len() >= 1,
        ensures
            r is Err <==> !(1 <= self.tolerance_milli <= 100_000),
            r matches Err(e) ==> e == SquashError::InvalidConfig,
            r matches Ok(s) ==> {
                &&& s.wf()
                &&& 1 <= s.palette_view().len() <= s.max_colours()
                &&& s.max_colours() == self.max_colours.sval() + 1
                &&& s.metric() == self.difference_fn
                &&& s.tolerance() == self.tolerance_milli as int
                &&& s.palette_view() == selection::greedy_palette(
                    self.difference_fn,
                    self.tolerance_milli as int,
                    self.max_colours.sval() + 1,
                    image.0@,
                )
            },
    {
        if self.tolerance_milli == 0 || self.tolerance_milli > 100_000 {
            return Err(SquashError::InvalidConfig);
        }
        let mut squasher = Squasher::from_parts(
            self.max_colours,
            self.difference_fn,
            self.tolerance_milli,
        );
        squasher.recolor(image);
        Ok(squasher)
    }
}

impl<T: Count> Default for SquasherBuilder<T> {
    fn default() -> (r: Self)
        ensures
            r.max_colours.sval() == 255,
            r.difference_fn == DifferenceFn::Rgb,
            r.tolerance_milli == 1000,
    {
        proof {
            T::lemma_max_value();
        }
        SquasherBuilder {
            max_colours: T::from_usize(255),
            difference_fn: DifferenceFn::Rgb,
            tolerance_milli: 1000,
        }
    }
}

} // verus!

verus! {

impl Squasher<u8> {
    /// Remap an image in place: write each pixel's palette index over the
    /// leading third of its own RGB byte buffer (one index byte replaces
    /// three color bytes) and return the indexed length. The buffer is not
    /// resized; bytes past the indexed third keep their old values. Fails
    /// with [`SquashError::MalformedBuffer`] exactly when the buffer length
    /// is not a multiple of three.
    pub fn map_over(&mut self, image: &mut Vec<u8>) -> (r: Result<usize, SquashError>)
        requires
            old(self).wf(),
        ensures
            final(self).wf(),
            final(self).palette_view() == old(self).palette_view(),
            final(self).max_colours() == old(self).max_colours(),
            final(self).metric() == old(self).metric(),
            final(self).tolerance() == old(self).tolerance(),
            r is Err <==> old(image)@.len() % 3 != 0,
            r matches Err(e) ==> e == SquashError::MalformedBuffer && *final(self) == *old(self)
                && final(image)@ == old(image)@,
            r matches Ok(n) ==> {
                &&& n == old(image)@.len() / 3
                &&& final(image)@.len() == old(image)@.len()
                &&& forall|i: int|
                    0 <= i < n ==> (#[trigger] final(image)@[i]) as int == selection::nearest_idx(
                        old(self).metric(),
                        old(self).palette_view(),
                        colors_of_bytes(old(image)@)[i],
                    )
                &&& forall|i: int|
                    0 <= i < n ==> ((#[trigger] final(image)@[i]) as int) < old(self).palette_view().len()
                &&& forall|i: int|
                    n <= i < old(image)@.len() ==> #[trigger] final(image)@[i] == old(image)@[i]
                &&& forall|c: Color|
                    histogram::count_of(colors_of_bytes(old(image)@), c) > 0
                        ==> #[trigger] final(self).table_entry(c) == selection::nearest_idx(
                        old(self).metric(),
                        old(self).palette_view(),
                        c,
                    )
                &&& forall|c: Color|
                    histogram::count_of(colors_of_bytes(old(image)@), c) == 0
                        ==> #[trigger] final(self).table_entry(c) == old(self).table_entry(c)
            },
    {
        let data = match ImageData::from_rgb_bytes(image.as_slice()) {
            Ok(d) => d,
            Err(_) => {
                return Err(SquashError::MalformedBuffer);
            },
        };
        let sorted = histogram::unique_and_sort(&data.0);
        self.map_selected(&sorted);
        proof {
            assert forall|c: Color|
                histogram::count_of(colors_of_bytes(old(image)@), c) > 0 implies #[trigger] self.table_entry(c)
                == selection::nearest_idx(old(self).metric(), old(self).palette_view(), c) by {
                let k = choose|k: int| 0 <= k < sorted@.len() && (#[trigger] sorted@[k]).0 == c;
            }
            assert forall|c: Color|
                histogram::count_of(colors_of_bytes(old(image)@), c) == 0 implies #[trigger] self.table_entry(c)
                == old(self).table_entry(c) by {
                if has_color(sorted@, c) {
                    let k = choose|k: int| 0 <= k < sorted@.len() && (#[trigger] sorted@[k]).0
                        == c;
                }
            }
        }
        let n = data.0.len();
        let mut i: usize = 0;
        while i < n
            invariant
                self.wf(),
                data.0@ == colors_of_bytes(old(image)@),
                n == data.0@.len(),
                i <= n,
                image@.len() == old(image)@.len(),
                n == old(image)@.len() / 3,
                forall|c: Color|
                    histogram::count_of(colors_of_bytes(old(image)@), c) > 0
                        ==> #[trigger] self.table_entry(c) == selection::nearest_idx(
                        old(self).metric(),
                        old(self).palette_view(),
                        c,
                    ),
                self.palette@ == old(self).palette_view(),
                self.difference_fn == old(self).metric(),
                forall|j: int|
                    0 <= j < i ==> (#[trigger] image@[j]) as int == selection::nearest_idx(
                        old(self).metric(),
                        old(self).palette_view(),
                        colors_of_bytes(old(image)@)[j],
                    ) && (image@[j] as int) < old(self).palette_view().len(),
                forall|j: int| i <= j < image@.len() ==> #[trigger] image@[j] == old(image)@[j],
            decreases n - i,
        {
            let c = data.0[i];
            proof {
                histogram::lemma_count_of_occurrence(data.0@, c);
                assert(data.0@.contains(c));
                assert(histogram::count_of(colors_of_bytes(old(image)@), c) > 0);
            }
            let addr = color::color_index(&c);
            let entry = self.table[addr];
            proof {
                assert(entry.sval() == self.table_entry(c));
                assert(entry.sval() < self.palette@.len());
            }
            image.set(i, entry);
            i = i + 1;
        }
        Ok(n)
    }
}

} // verus!
