//! Quantization backends: reduce a list of colors to a small palette.
use vstd::prelude::*;
use crate::color::Color;
use crate::text::str_eq;
use vstd::string::StringExecFns;

verus! {

/// Which quantization strategy reduces the samples to a palette.
#[derive(Clone, Copy, Debug, PartialEq, Eq, Hash, Structural)]
pub enum Backend {
    /// Weighted k-means in Lab space, best of three seeded runs.
    ColorZ,
    /// Median-cut color reduction on the raw sRGB bytes.
    Colorthief,
}

impl Backend {
    /// The backend's canonical lower-case name.
    pub open spec fn name(self) -> Seq<char> {
        match self {
            Backend::ColorZ => "colorz"@,
            Backend::Colorthief => "colorthief"@,
        }
    }

    /// Selects a backend by name; every name but `colorthief` and
    /// `ColorThief` selects the k-means backend.
    pub fn from_name(value: &str) -> (r: Backend)
        ensures
            r == (if value@ == "colorthief"@ || value@ == "ColorThief"@ {
                Backend::Colorthief
            } else {
                Backend::ColorZ
            }),
    {
        if str_eq(value, "colorthief") || str_eq(value, "ColorThief") {
            Backend::Colorthief
        } else {
            Backend::ColorZ
        }
    }

    /// The backend's canonical lower-case name.
    pub fn to_string(&self) -> (r: String)
        ensures
            r@ == self.name(),
    {
        match self {
            Backend::Colorthief => String::from_str("colorthief"),
            Backend::ColorZ => String::from_str("colorz"),
        }
    }
}

impl Default for Backend {
    fn default() -> (r: Backend)
        ensures
            r == Backend::ColorZ,
    {
        Backend::ColorZ
    }
}

/// The interleaved `r, g, b` bytes of a list of colors.
pub open spec fn interleaved(s: Seq<Color>) -> Seq<u8>
    decreases s.len(),
{
    if s.len() == 0 {
        Seq::empty()
    } else {
        interleaved(s.drop_last()) + seq![s.last().0, s.last().1, s.last().2]
    }
}

proof fn lemma_interleaved_len(s: Seq<Color>)
    ensures
        interleaved(s).len() == 3 * s.len(),
    decreases s.len(),
{
    if s.len() > 0 {
        lemma_interleaved_len(s.drop_last());
    }
}

/// The palette that color-thief's median cut gives for interleaved RGB
/// bytes at quality 5, asking for at most `max_colors` colors; `None` when it
/// reports that the pixels cannot be cut.
pub uninterp spec fn median_cut_palette(pixels: Seq<u8>, max_colors: u8) -> Option<Seq<Color>>;

#[verifier::external_type_specification]
#[verifier::external_body]
pub struct ExThiefError(color_thief::Error);

/// Relies on `color_thief::get_palette` with RGB byte triples and quality 5:
/// a deterministic median cut that keeps at most `max_colors` colors. It
/// asserts `max_colors > 1`, and its `i32` channel sums stay in range for at
/// most 300,000,000 bytes (it samples every 15th pixel).
#[verifier::external_body]
fn median_cut(pixels: &Vec<u8>, max_colors: u8) -> (r: Result<Vec<Color>, color_thief::Error>)
    requires
        max_colors >= 2,
        pixels@.len() % 3 == 0,
        pixels@.len() <= 300_000_000,
    ensures
        match r {
            Ok(v) => median_cut_palette(pixels@, max_colors) == Some(v@) && v@.len()
                <= max_colors,
            Err(_) => median_cut_palette(pixels@, max_colors) is None,
        },
{
    color_thief::get_palette(pixels, color_thief::ColorFormat::Rgb, 5, max_colors).map(
        |cs| cs.into_iter().map(|c| (c.r, c.g, c.b)).collect(),
    )
}

/// Most colors the median cut takes in one call.
pub const MEDIAN_CUT_MAX_COLORS: usize = 100_000_000;

/// The number of colors asked of the median cut for a target of `count`:
/// `count` itself, at most 255.
pub open spec fn median_cut_request(count: usize) -> u8 {
    if count > 255 {
        255
    } else {
        count as u8
    }
}

/// Median-cut (statistical) quantization backend.
pub struct ColorThief;

impl ColorThief {
    /// Reduces `colors` to at most `count` colors by median cut, asking for
    /// `count` colors (255 when `count` is larger). `None` for an empty
    /// input, a target below 2, more than `MEDIAN_CUT_MAX_COLORS` colors,
    /// or when the cut fails.
    pub fn generate_palette(&self, colors: &Vec<Color>, count: usize) -> (r: Option<Vec<Color>>)
        ensures
            colors@.len() == 0 || count < 2 || colors@.len() > MEDIAN_CUT_MAX_COLORS ==> r is None,
            colors@.len() > 0 && count >= 2 && colors@.len() <= MEDIAN_CUT_MAX_COLORS ==> match r {
                Some(v) => median_cut_palette(interleaved(colors@), median_cut_request(count))
                    == Some(v@),
                None => median_cut_palette(
                    interleaved(colors@),
                    median_cut_request(count),
                ) is None,
            },
            r matches Some(v) ==> v@.len() <= count,
    {
        if colors.len() == 0 || count < 2 || colors.len() > MEDIAN_CUT_MAX_COLORS {
            return None;
        }
        let mut pixels: Vec<u8> = Vec::new();
        let mut i: usize = 0;
        while i < colors.len()
            invariant
                i <= colors.len(),
                colors.len() <= MEDIAN_CUT_MAX_COLORS,
                pixels@ == interleaved(colors@.subrange(0, i as int)),
            decreases colors.len() - i,
        {
            let c = colors[i];
            proof {
                lemma_interleaved_len(colors@.subrange(0, i as int));
            }
            pixels.push(c.0);
            pixels.push(c.1);
            pixels.push(c.2);
            proof {
                assert(colors@.subrange(0, i + 1).drop_last() =~= colors@.subrange(0, i as int));
                assert(pixels@ =~= interleaved(colors@.subrange(0, i as int)) + seq![c.0, c.1, c.2]);
            }
            i = i + 1;
        }
        proof {
            assert(colors@.subrange(0, colors.len() as int) =~= colors@);
            lemma_interleaved_len(colors@);
        }
        let request: u8 = if count > 255 {
            255
        } else {
            count as u8
        };
        match median_cut(&pixels, request) {
            Ok(v) => Some(v),
            Err(_) => None,
        }
    }
}

/// Seeded k-means quantization backend. The clustering itself runs in
/// floating point outside this library; here the centroids it found are
/// completed to the requested size.
pub struct ColorZ;

/// `count` copies of black.
pub open spec fn black_run(n: int) -> Seq<Color> {
    Seq::new(n as nat, |i: int| (0u8, 0u8, 0u8))
}

impl ColorZ {
    /// The seeds of the three clustering runs, in order.
    pub fn seeds(&self) -> (r: [u64; 3])
        ensures
            r@ == seq![64u64, 65u64, 66u64],
    {
        let r = [64u64, 65u64, 66u64];
        assert(r@ =~= seq![64u64, 65u64, 66u64]);
        r
    }

    /// Index of the run with the lowest clustering score; the first such run
    /// on ties.
    pub fn best_run(&self, scores: &Vec<u64>) -> (r: usize)
        requires
            scores@.len() > 0,
        ensures
            r < scores@.len(),
            forall|j: int| 0 <= j < scores@.len() ==> scores@[r as int] <= #[trigger] scores@[j],
            forall|j: int| 0 <= j < r ==> scores@[r as int] < #[trigger] scores@[j],
    {
        let mut best: usize = 0;
        let mut i: usize = 1;
        while i < scores.len()
            invariant
                1 <= i <= scores@.len(),
                best < i,
                forall|j: int| 0 <= j < i ==> scores@[best as int] <= #[trigger] scores@[j],
                forall|j: int| 0 <= j < best ==> scores@[best as int] < #[trigger] scores@[j],
            decreases scores.len() - i,
        {
            if scores[i] < scores[best] {
                best = i;
            }
            i = i + 1;
        }
        best
    }

    /// Pads the centroids with black up to `count` entries; a list that is
    /// already long enough is kept as it is.
    pub fn pad_palette(&self, centroids: Vec<Color>, count: usize) -> (r: Vec<Color>)
        ensures
            centroids@.len() >= count ==> r@ == centroids@,
            centroids@.len() < count ==> r@ == centroids@ + black_run(
                count - centroids@.len(),
            ),
    {
        let mut out = centroids;
        let n0 = out.len();
        while out.len() < count
            invariant
                n0 == centroids@.len(),
                n0 <= out@.len(),
                n0 < count ==> out@.len() <= count,
                n0 >= count ==> out@.len() == n0,
                out@ == centroids@ + black_run(out@.len() - n0),
            decreases count - out.len(),
        {
            out.push((0, 0, 0));
            assert(out@ =~= centroids@ + black_run(out@.len() - n0));
        }
        proof {
            if n0 >= count {
                assert(black_run(0) =~= Seq::<Color>::empty());
                assert(out@ =~= centroids@);
            }
        }
        out
    }
}

} // verus!
