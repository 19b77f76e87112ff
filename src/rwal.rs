//! The colorscheme pipeline: sample normalization and colorscheme synthesis.
use vstd::prelude::*;
use vstd::string::StringExecFns;
use crate::backends::Backend;
use crate::color::{Color, mix, mix_colors, hex_of, parse_hex, rgb_to_hex, hex_to_rgb, lemma_hex_round_trip};
use crate::text::{push_char};
use vstd::string::StrSliceExecFns;
use crate::config::Config;
use crate::hsv::{Hsv, hsv_of, to_hsv, to_rgb, lemma_hsv_round_trip};
use crate::order::{hue_sorted, sort_by_hue, lemma_hue_sorted_len};

verus! {

/// Why a run produced no colorscheme.
#[derive(Clone, Copy, Debug, PartialEq, Eq, Structural)]
pub enum RwalError {
    /// The quantization backend returned nothing.
    QuantizationFailure,
    /// The palette held fewer than eight colors.
    InsufficientPalette,
}

/// The sixteen output colors: `t0` background, `t7` foreground, `t1`..`t6`
/// palette entries, `t8`..`t15` their lightened companions.
#[derive(Clone, Copy, Debug, PartialEq, Eq)]
pub struct Colorscheme {
    pub t0: Color,
    pub t1: Color,
    pub t2: Color,
    pub t3: Color,
    pub t4: Color,
    pub t5: Color,
    pub t6: Color,
    pub t7: Color,
    pub t8: Color,
    pub t9: Color,
    pub t10: Color,
    pub t11: Color,
    pub t12: Color,
    pub t13: Color,
    pub t14: Color,
    pub t15: Color,
}

pub open spec fn white() -> Color {
    (255u8, 255u8, 255u8)
}

impl Colorscheme {
    /// The sixteen colors in slot order.
    pub open spec fn slots(self) -> Seq<Color> {
        seq![
            self.t0, self.t1, self.t2, self.t3, self.t4, self.t5, self.t6, self.t7,
            self.t8, self.t9, self.t10, self.t11, self.t12, self.t13, self.t14, self.t15,
        ]
    }

    /// The colorscheme whose slots are `s`.
    pub open spec fn from_slots(s: Seq<Color>) -> Colorscheme {
        Colorscheme {
            t0: s[0], t1: s[1], t2: s[2], t3: s[3], t4: s[4], t5: s[5], t6: s[6], t7: s[7],
            t8: s[8], t9: s[9], t10: s[10], t11: s[11], t12: s[12], t13: s[13], t14: s[14],
            t15: s[15],
        }
    }

    /// The sixteen colors in slot order.
    pub fn into_array(self) -> (r: [Color; 16])
        ensures
            r@ == self.slots(),
    {
        let r = [
            self.t0, self.t1, self.t2, self.t3, self.t4, self.t5, self.t6, self.t7, self.t8,
            self.t9, self.t10, self.t11, self.t12, self.t13, self.t14, self.t15,
        ];
        assert(r@ =~= self.slots());
        r
    }
}

/// Hex lines of the colors, joined by newlines.
pub open spec fn joined_hex(s: Seq<Color>) -> Seq<char>
    decreases s.len(),
{
    if s.len() == 0 {
        Seq::empty()
    } else if s.len() == 1 {
        hex_of(s[0])
    } else {
        joined_hex(s.drop_last()) + seq!['\n'] + hex_of(s.last())
    }
}

/// The colorscheme written in cache text, if `t` is sixteen `#rrggbb` lines
/// joined by newlines.
pub open spec fn parse_cache_text(t: Seq<char>) -> Option<Colorscheme> {
    if t.len() == 127 && (forall|k: int| 0 <= k < 15 ==> #[trigger] t[8 * k + 7] == '\n')
        && (forall|k: int| 0 <= k < 16 ==> #[trigger] parse_hex(t.subrange(8 * k, 8 * k + 7)) is Some) {
        Some(Colorscheme::from_slots(Seq::new(16, |k: int| parse_hex(t.subrange(8 * k, 8 * k + 7))->Some_0)))
    } else {
        None
    }
}

proof fn lemma_joined_hex_layout(s: Seq<Color>)
    requires
        s.len() >= 1,
    ensures
        joined_hex(s).len() == 8 * s.len() - 1,
        forall|k: int| 0 <= k < s.len() ==> #[trigger] joined_hex(s).subrange(8 * k, 8 * k + 7) == hex_of(s[k]),
        forall|k: int| 0 <= k < s.len() - 1 ==> #[trigger] joined_hex(s)[8 * k + 7] == '\n',
    decreases s.len(),
{
    if s.len() > 1 {
        let u = s.drop_last();
        lemma_joined_hex_layout(u);
        let j = joined_hex(s);
        let ju = joined_hex(u);
        let n = s.len() as int;
        assert(j == ju + seq!['\n'] + hex_of(s.last()));
        assert forall|k: int| 0 <= k < s.len() implies #[trigger] j.subrange(8 * k, 8 * k + 7) == hex_of(s[k]) by {
            if k < n - 1 {
                assert(j.subrange(8 * k, 8 * k + 7) =~= ju.subrange(8 * k, 8 * k + 7));
                assert(u[k] == s[k]);
            } else {
                assert(j.subrange(8 * k, 8 * k + 7) =~= hex_of(s.last()));
            }
        }
        assert forall|k: int| 0 <= k < s.len() - 1 implies #[trigger] j[8 * k + 7] == '\n' by {
            if k < n - 2 {
                assert(j[8 * k + 7] == ju[8 * k + 7]);
            }
        }
    }
}

impl Colorscheme {
    /// The cache text: the sixteen colors as `#rrggbb` lines, joined by newlines.
    pub open spec fn cache_text(self) -> Seq<char> {
        joined_hex(self.slots())
    }

    /// Writes the colorscheme as sixteen `#rrggbb` lines joined by newlines.
    pub fn to_cache_text(&self) -> (r: String)
        ensures
            r@ == self.cache_text(),
    {
        let slots = self.into_array();
        let mut s = String::new();
        let mut i: usize = 0;
        while i < 16
            invariant
                i <= 16,
                slots@ == self.slots(),
                s@ == joined_hex(slots@.subrange(0, i as int)),
            decreases 16 - i,
        {
            proof {
                assert(slots@.subrange(0, i + 1).drop_last() =~= slots@.subrange(0, i as int));
            }
            if i > 0 {
                push_char(&mut s, '\n');
            } else {
                assert(s@ =~= Seq::<char>::empty());
            }
            let h = rgb_to_hex(slots[i]);
            s.append(h.as_str());
            i = i + 1;
        }
        assert(slots@.subrange(0, 16) =~= slots@);
        s
    }

    /// Reads cache text back; `None` unless it is sixteen `#rrggbb` lines
    /// joined by newlines.
    pub fn from_cache_text(text: &str) -> (r: Option<Colorscheme>)
        ensures
            r == parse_cache_text(text@),
    {
        let ghost t = text@;
        if text.unicode_len() != 127 {
            return None;
        }
        let mut colors: Vec<Color> = Vec::new();
        let mut k: usize = 0;
        while k < 16
            invariant
                t == text@,
                t.len() == 127,
                k <= 16,
                colors@.len() == k,
                forall|j: int| 0 <= j < k && j < 15 ==> #[trigger] t[8 * j + 7] == '\n',
                forall|j: int| 0 <= j < k ==> #[trigger] parse_hex(t.subrange(8 * j, 8 * j + 7)) == Some(colors@[j]),
            decreases 16 - k,
        {
            if k < 15 && text.get_char(8 * k + 7) != '\n' {
                return None;
            }
            match hex_to_rgb(text.substring_char(8 * k, 8 * k + 7)) {
                Ok(c) => {
                    colors.push(c);
                },
                Err(_) => {
                    return None;
                },
            }
            k = k + 1;
        }
        let ghost want = Seq::new(16, |j: int| parse_hex(t.subrange(8 * j, 8 * j + 7))->Some_0);
        assert(colors@ =~= want);
        Some(
            Colorscheme {
                t0: colors[0],
                t1: colors[1],
                t2: colors[2],
                t3: colors[3],
                t4: colors[4],
                t5: colors[5],
                t6: colors[6],
                t7: colors[7],
                t8: colors[8],
                t9: colors[9],
                t10: colors[10],
                t11: colors[11],
                t12: colors[12],
                t13: colors[13],
                t14: colors[14],
                t15: colors[15],
            },
        )
    }
}

/// Reading back the cache text of a colorscheme gives the same sixteen colors.
pub proof fn lemma_cache_round_trip(cs: Colorscheme)
    ensures
        parse_cache_text(cs.cache_text()) == Some(cs),
{
    let s = cs.slots();
    let t = cs.cache_text();
    lemma_joined_hex_layout(s);
    assert forall|k: int| 0 <= k < 16 implies #[trigger] parse_hex(t.subrange(8 * k, 8 * k + 7)) == Some(s[k]) by {
        lemma_hex_round_trip(s[k]);
    }
    let want = Seq::new(16, |k: int| parse_hex(t.subrange(8 * k, 8 * k + 7))->Some_0);
    assert(want =~= s);
}

/// One run's settings, as the pipeline reads them.
#[derive(Clone, Copy, Debug, PartialEq, Eq)]
pub struct Rwal {
    pub backend: Backend,
    pub image_resize: (u32, u32),
    pub bg_idx: usize,
    pub bg_color: Color,
    pub bg_strength: u8,
    pub fg_idx: usize,
    pub fg_strength: u8,
    pub fg_color: Color,
    pub clamp_saturation: bool,
    /// (min, max) in thousandths.
    pub saturation_clamp: (u16, u16),
    pub skip_saturation: bool,
    /// (min, max) in thousandths.
    pub saturation_skip: (u16, u16),
    pub clamp_value: bool,
    /// (min, max) in thousandths.
    pub value_clamp: (u16, u16),
    pub skip_value: bool,
    /// (min, max) in thousandths.
    pub value_skip: (u16, u16),
}

impl Rwal {
    pub open spec fn wf(&self) -> bool {
        &&& self.bg_idx <= 7
        &&& self.fg_idx <= 7
        &&& self.saturation_clamp.0 <= self.saturation_clamp.1 <= 1000
        &&& self.value_clamp.0 <= self.value_clamp.1 <= 1000
        &&& self.saturation_skip.0 <= self.saturation_skip.1 <= 1000
        &&& self.value_skip.0 <= self.value_skip.1 <= 1000
    }

    /// Takes the settings of a run; in light mode the background and
    /// foreground colors trade places.
    pub fn from_config(config: &Config) -> (r: Rwal)
        requires
            config.wf(),
        ensures
            r.wf(),
            r.backend == config.backend,
            r.image_resize == (config.thumb_w, config.thumb_h),
            r.bg_idx == config.bg_idx && r.bg_strength == config.bg_strength,
            r.fg_idx == config.fg_idx && r.fg_strength == config.fg_strength,
            r.bg_color == (if config.light { config.fg_color } else { config.bg_color }),
            r.fg_color == (if config.light { config.bg_color } else { config.fg_color }),
            r.clamp_saturation == config.clamp_saturation,
            r.saturation_clamp == (config.clamp_saturation_min, config.clamp_saturation_max),
            r.skip_saturation == config.skip_saturation,
            r.saturation_skip == (config.skip_saturation_min, config.skip_saturation_max),
            r.clamp_value == config.clamp_value,
            r.value_clamp == (config.clamp_value_min, config.clamp_value_max),
            r.skip_value == config.skip_value,
            r.value_skip == (config.skip_value_min, config.skip_value_max),
    {
        let (bg_color, fg_color) = if config.light {
            (config.fg_color, config.bg_color)
        } else {
            (config.bg_color, config.fg_color)
        };
        Rwal {
            backend: config.backend,
            image_resize: (config.thumb_w, config.thumb_h),
            bg_idx: config.bg_idx,
            bg_color,
            bg_strength: config.bg_strength,
            fg_idx: config.fg_idx,
            fg_strength: config.fg_strength,
            fg_color,
            clamp_saturation: config.clamp_saturation,
            saturation_clamp: (config.clamp_saturation_min, config.clamp_saturation_max),
            skip_saturation: config.skip_saturation,
            saturation_skip: (config.skip_saturation_min, config.skip_saturation_max),
            clamp_value: config.clamp_value,
            value_clamp: (config.clamp_value_min, config.clamp_value_max),
            skip_value: config.skip_value,
            value_skip: (config.skip_value_min, config.skip_value_max),
        }
    }

    /// A sample survives the skip filters: with a filter on, its saturation
    /// (or value) lies strictly between the filter's bounds.
    pub open spec fn keeps(&self, c: Color) -> bool {
        let h = hsv_of(c);
        &&& (self.skip_saturation ==> h.saturation.exceeds(self.saturation_skip.0)
            && h.saturation.falls_short(self.saturation_skip.1))
        &&& (self.skip_value ==> h.value.exceeds(self.value_skip.0) && h.value.falls_short(
            self.value_skip.1,
        ))
    }

    /// A sample's saturation and value after the clamps that are on.
    pub open spec fn clamped(&self, c: Color) -> Hsv {
        let h = hsv_of(c);
        Hsv {
            saturation: if self.clamp_saturation {
                h.saturation.clamped(self.saturation_clamp.0, self.saturation_clamp.1)
            } else {
                h.saturation
            },
            value: if self.clamp_value {
                h.value.clamped(self.value_clamp.0, self.value_clamp.1)
            } else {
                h.value
            },
            ..h
        }
    }

    /// The surviving samples, in order, each clamped and turned back into sRGB.
    pub open spec fn prepared(&self, s: Seq<Color>) -> Seq<Color>
        decreases s.len(),
    {
        if s.len() == 0 {
            Seq::empty()
        } else if self.keeps(s.last()) {
            self.prepared(s.drop_last()).push(self.clamped(s.last()).rgb())
        } else {
            self.prepared(s.drop_last())
        }
    }

    fn prepare_color(&self, c: Color) -> (r: Option<Color>)
        requires
            self.wf(),
        ensures
            r == (if self.keeps(c) {
                Some(self.clamped(c).rgb())
            } else {
                None
            }),
    {
        let mut h = to_hsv(c);
        if self.skip_saturation && !h.saturation.strictly_between(
            self.saturation_skip.0,
            self.saturation_skip.1,
        ) {
            return None;
        }
        if self.skip_value && !h.value.strictly_between(self.value_skip.0, self.value_skip.1) {
            return None;
        }
        if self.clamp_saturation {
            h.saturation = h.saturation.clamp(self.saturation_clamp.0, self.saturation_clamp.1);
        }
        if self.clamp_value {
            h.value = h.value.clamp(self.value_clamp.0, self.value_clamp.1);
        }
        Some(to_rgb(&h))
    }

    /// Filters the samples by saturation and value, clamps what survives, and
    /// turns it back into sRGB.
    pub fn prepare_colors(&self, pixels: &Vec<Color>) -> (r: Vec<Color>)
        requires
            self.wf(),
        ensures
            r@ == self.prepared(pixels@),
    {
        let mut out: Vec<Color> = Vec::new();
        let mut i: usize = 0;
        while i < pixels.len()
            invariant
                self.wf(),
                i <= pixels.len(),
                out@ == self.prepared(pixels@.subrange(0, i as int)),
            decreases pixels.len() - i,
        {
            proof {
                assert(pixels@.subrange(0, i + 1).drop_last() =~= pixels@.subrange(0, i as int));
            }
            match self.prepare_color(pixels[i]) {
                Some(c) => out.push(c),
                None => {},
            }
            i = i + 1;
        }
        assert(pixels@.subrange(0, pixels.len() as int) =~= pixels@);
        out
    }

    /// With both clamps off, a sample comes out of normalization exactly when
    /// it lies strictly inside every skip filter that is on, and unchanged.
    pub proof fn lemma_skip_filter(&self, s: Seq<Color>)
        requires
            !self.clamp_saturation,
            !self.clamp_value,
        ensures
            forall|c: Color| #[trigger] self.prepared(s).contains(c) <==> (s.contains(c) && self.keeps(c)),
        decreases s.len(),
    {
        if s.len() > 0 {
            let u = s.drop_last();
            let x = s.last();
            self.lemma_skip_filter(u);
            lemma_hsv_round_trip(x);
            assert(self.clamped(x) == hsv_of(x));
            assert(s =~= u.push(x));
            assert forall|c: Color| #[trigger] self.prepared(s).contains(c) <==> (s.contains(c) && self.keeps(c)) by {
                let pu = self.prepared(u);
                if s.contains(c) && !u.contains(c) {
                    let j = choose|j: int| 0 <= j < s.len() && s[j] == c;
                    if j < u.len() {
                        assert(u[j] == c);
                    }
                    assert(c == x);
                }
                if u.contains(c) {
                    let j = choose|j: int| 0 <= j < u.len() && u[j] == c;
                    assert(s[j] == c);
                }
                if self.keeps(x) {
                    assert(self.prepared(s) == pu.push(x));
                    if pu.contains(c) {
                        let j = choose|j: int| 0 <= j < pu.len() && pu[j] == c;
                        assert(pu.push(x)[j] == c);
                    }
                    if pu.push(x).contains(c) && c != x {
                        let j = choose|j: int| 0 <= j < pu.len() + 1 && pu.push(x)[j] == c;
                        assert(pu[j] == c);
                    }
                    assert(pu.push(x)[pu.len() as int] == x);
                }
            }
        }
    }

    /// The colorscheme built from a hue-ordered palette of at least eight colors.
    pub open spec fn scheme(&self, p: Seq<Color>) -> Colorscheme {
        let bg = mix(self.bg_color, p[self.bg_idx as int], self.bg_strength);
        let fg = mix(self.fg_color, p[self.fg_idx as int], self.fg_strength);
        Colorscheme {
            t0: bg,
            t1: p[1],
            t2: p[2],
            t3: p[3],
            t4: p[4],
            t5: p[5],
            t6: p[6],
            t7: fg,
            t8: mix(bg, white(), 10),
            t9: mix(p[1], white(), 30),
            t10: mix(p[2], white(), 30),
            t11: mix(p[3], white(), 30),
            t12: mix(p[4], white(), 30),
            t13: mix(p[5], white(), 30),
            t14: mix(p[6], white(), 30),
            t15: mix(fg, white(), 10),
        }
    }

    /// Orders the backend's palette by hue and builds the colorscheme from it.
    pub fn generate_colorscheme(&self, palette: Option<Vec<Color>>) -> (r: Result<
        Colorscheme,
        RwalError,
    >)
        requires
            self.wf(),
        ensures
            palette is None ==> r == Err::<Colorscheme, RwalError>(
                RwalError::QuantizationFailure,
            ),
            palette matches Some(v) ==> (v@.len() < 8 ==> r == Err::<Colorscheme, RwalError>(
                RwalError::InsufficientPalette,
            )),
            palette matches Some(v) ==> (v@.len() >= 8 ==> r == Ok::<Colorscheme, RwalError>(
                self.scheme(hue_sorted(v@)),
            )),
    {
        let raw = match palette {
            Some(p) => p,
            None => {
                return Err(RwalError::QuantizationFailure);
            },
        };
        let palette = sort_by_hue(&raw);
        proof {
            lemma_hue_sorted_len(raw@);
        }
        if palette.len() < 8 {
            return Err(RwalError::InsufficientPalette);
        }
        let white: Color = (255, 255, 255);
        let bg = mix_colors(self.bg_color, palette[self.bg_idx], self.bg_strength);
        let fg = mix_colors(self.fg_color, palette[self.fg_idx], self.fg_strength);
        Ok(
            Colorscheme {
                t0: bg,
                t1: palette[1],
                t2: palette[2],
                t3: palette[3],
                t4: palette[4],
                t5: palette[5],
                t6: palette[6],
                t7: fg,
                t8: mix_colors(bg, white, 10),
                t9: mix_colors(palette[1], white, 30),
                t10: mix_colors(palette[2], white, 30),
                t11: mix_colors(palette[3], white, 30),
                t12: mix_colors(palette[4], white, 30),
                t13: mix_colors(palette[5], white, 30),
                t14: mix_colors(palette[6], white, 30),
                t15: mix_colors(fg, white, 10),
            },
        )
    }
}

} // verus!
