//! An HTML page of swatches for a colorscheme.
use vstd::prelude::*;
use vstd::string::StringExecFns;
use crate::color::Color;
use crate::rwal::Colorscheme;
use crate::text::{dec_text, push_decimal};

verus! {

/// `rgb(r, g, b)` in CSS.
pub open spec fn rgb_text(c: Color) -> Seq<char> {
    "rgb("@ + dec_text(c.0 as nat) + ", "@ + dec_text(c.1 as nat) + ", "@ + dec_text(c.2 as nat)
        + ")"@
}

/// One square swatch of color `c`.
pub open spec fn swatch_text(c: Color) -> Seq<char> {
    "<div style=\"background: "@ + rgb_text(c)
        + "; width: 48px; height: 48px; display: inline-block\"></div>"@
}

/// Swatches of the colors, side by side.
pub open spec fn swatches_text(s: Seq<Color>) -> Seq<char>
    decreases s.len(),
{
    if s.len() == 0 {
        Seq::empty()
    } else {
        swatches_text(s.drop_last()) + swatch_text(s.last())
    }
}

/// The preview page: the dark row of slots 0-7 over the light row of slots
/// 8-15, on the background color with the foreground color as text color.
pub open spec fn preview_text(cs: Colorscheme) -> Seq<char> {
    let s = cs.slots();
    "<html><body style=\"background: "@ + rgb_text(cs.t0) + "; color: "@ + rgb_text(cs.t7)
        + "\">\n<div>"@ + swatches_text(s.subrange(0, 8)) + "</div>\n<div>"@ + swatches_text(
        s.subrange(8, 16),
    ) + "</div>\n</body></html>\n"@
}

fn push_rgb(s: &mut String, c: Color)
    ensures
        final(s)@ == old(s)@ + rgb_text(c),
{
    s.append("rgb(");
    push_decimal(s, c.0 as u64);
    s.append(", ");
    push_decimal(s, c.1 as u64);
    s.append(", ");
    push_decimal(s, c.2 as u64);
    s.append(")");
    assert(final(s)@ =~= old(s)@ + rgb_text(c));
}

fn push_swatches(s: &mut String, slots: &[Color; 16], lo: usize, hi: usize)
    requires
        lo <= hi <= 16,
    ensures
        final(s)@ == old(s)@ + swatches_text(slots@.subrange(lo as int, hi as int)),
{
    let mut i: usize = lo;
    assert(slots@.subrange(lo as int, lo as int) =~= Seq::<Color>::empty());
    assert(s@ =~= old(s)@ + swatches_text(slots@.subrange(lo as int, lo as int)));
    while i < hi
        invariant
            lo <= i <= hi <= 16,
            s@ == old(s)@ + swatches_text(slots@.subrange(lo as int, i as int)),
        decreases hi - i,
    {
        let c = slots[i];
        s.append("<div style=\"background: ");
        push_rgb(s, c);
        s.append("; width: 48px; height: 48px; display: inline-block\"></div>");
        proof {
            assert(slots@.subrange(lo as int, i + 1).drop_last() =~= slots@.subrange(
                lo as int,
                i as int,
            ));
        }
        i = i + 1;
        assert(s@ =~= old(s)@ + swatches_text(slots@.subrange(lo as int, i as int)));
    }
}

impl Colorscheme {
    /// An HTML page showing the sixteen colors as swatches.
    pub fn html_preview(&self) -> (r: String)
        ensures
            r@ == preview_text(*self),
    {
        let slots = self.into_array();
        let mut s = String::new();
        s.append("<html><body style=\"background: ");
        push_rgb(&mut s, self.t0);
        s.append("; color: ");
        push_rgb(&mut s, self.t7);
        s.append("\">\n<div>");
        push_swatches(&mut s, &slots, 0, 8);
        s.append("</div>\n<div>");
        push_swatches(&mut s, &slots, 8, 16);
        s.append("</div>\n</body></html>\n");
        assert(s@ =~= preview_text(*self));
        s
    }
}

} // verus!
