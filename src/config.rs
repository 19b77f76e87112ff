//! The settings record and its cache fingerprint.
//!
//! Every bound on saturation or value is written in thousandths: 400 stands
//! for 0.4.
use vstd::prelude::*;
use vstd::string::StrSliceExecFns;
use vstd::string::StringExecFns;
use crate::backends::Backend;
use crate::color::{Color, hex_of, rgb_to_hex, hex_value, lemma_hex_char_value, lemma_hex_round_trip};
use crate::text::{
    bool_text, dec_text, thousandths_text, push_bool, push_char, push_decimal,
    push_thousandths, free_of, joined_by, lemma_dec_text_injective, lemma_joined_by_injective,
    lemma_dec_text_digits, lemma_thousandths_chars, lemma_thousandths_injective,
};

verus! {

/// Every tunable of one run.
#[derive(Clone, Copy, Debug, PartialEq, Eq)]
pub struct Config {
    pub backend: Backend,
    pub thumb_w: u32,
    pub thumb_h: u32,
    pub bg_color: Color,
    pub bg_idx: usize,
    pub bg_strength: u8,
    pub fg_color: Color,
    pub fg_idx: usize,
    pub fg_strength: u8,
    pub light: bool,
    pub clamp_saturation: bool,
    pub clamp_value: bool,
    pub skip_saturation: bool,
    pub skip_value: bool,
    pub clamp_value_min: u16,
    pub clamp_value_max: u16,
    pub clamp_saturation_min: u16,
    pub clamp_saturation_max: u16,
    pub skip_value_min: u16,
    pub skip_value_max: u16,
    pub skip_saturation_min: u16,
    pub skip_saturation_max: u16,
}

impl Config {
    /// The record's invariants: positive thumbnail size, palette indices in
    /// [0, 7], strengths in [0, 100], bounds in [0, 1] with min <= max.
    pub open spec fn wf(&self) -> bool {
        &&& self.thumb_w >= 1
        &&& self.thumb_h >= 1
        &&& self.bg_idx <= 7
        &&& self.fg_idx <= 7
        &&& self.bg_strength <= 100
        &&& self.fg_strength <= 100
        &&& self.clamp_value_min <= self.clamp_value_max <= 1000
        &&& self.clamp_saturation_min <= self.clamp_saturation_max <= 1000
        &&& self.skip_value_min <= self.skip_value_max <= 1000
        &&& self.skip_saturation_min <= self.skip_saturation_max <= 1000
    }

    /// The text of every field, in field order: numbers in decimal, colors
    /// as `#rrggbb`, flags as `true` / `false`, bounds as their shortest
    /// decimal text.
    pub open spec fn key_fields(&self) -> Seq<Seq<char>> {
        seq![
            self.backend.name(),
            dec_text(self.thumb_w as nat),
            dec_text(self.thumb_h as nat),
            hex_of(self.bg_color),
            dec_text(self.bg_idx as nat),
            dec_text(self.bg_strength as nat),
            hex_of(self.fg_color),
            dec_text(self.fg_idx as nat),
            dec_text(self.fg_strength as nat),
            bool_text(self.light),
            bool_text(self.clamp_saturation),
            bool_text(self.clamp_value),
            bool_text(self.skip_saturation),
            bool_text(self.skip_value),
            thousandths_text(self.clamp_value_min),
            thousandths_text(self.clamp_value_max),
            thousandths_text(self.clamp_saturation_min),
            thousandths_text(self.clamp_saturation_max),
            thousandths_text(self.skip_value_min),
            thousandths_text(self.skip_value_max),
            thousandths_text(self.skip_saturation_min),
            thousandths_text(self.skip_saturation_max),
        ]
    }

    /// The field texts joined by `_`, which none of them holds.
    pub open spec fn cache_key(&self) -> Seq<char> {
        joined_by(self.key_fields(), '_')
    }

    /// Checks the record's invariants; the error names the first one broken.
    pub fn validate(&self) -> (r: Result<(), String>)
        ensures
            r is Ok <==> self.wf(),
    {
        if self.thumb_w < 1 {
            return Err(String::from_str("thumb_w must be at least 1"));
        }
        if self.thumb_h < 1 {
            return Err(String::from_str("thumb_h must be at least 1"));
        }
        if self.bg_idx > 7 {
            return Err(String::from_str("bg_idx must be between 0 and 7"));
        }
        if self.fg_idx > 7 {
            return Err(String::from_str("fg_idx must be between 0 and 7"));
        }
        if self.bg_strength > 100 {
            return Err(String::from_str("bg_strength must be between 0 and 100"));
        }
        if self.fg_strength > 100 {
            return Err(String::from_str("fg_strength must be between 0 and 100"));
        }
        if self.clamp_value_max > 1000 || self.clamp_saturation_max > 1000
            || self.skip_value_max > 1000 || self.skip_saturation_max > 1000 {
            return Err(String::from_str("bounds must be between 0.0 and 1.0"));
        }
        if self.clamp_value_min > self.clamp_value_max {
            return Err(String::from_str("clamp_value_min must be <= clamp_value_max"));
        }
        if self.clamp_saturation_min > self.clamp_saturation_max {
            return Err(String::from_str("clamp_saturation_min must be <= clamp_saturation_max"));
        }
        if self.skip_value_min > self.skip_value_max {
            return Err(String::from_str("skip_value_min must be <= skip_value_max"));
        }
        if self.skip_saturation_min > self.skip_saturation_max {
            return Err(String::from_str("skip_saturation_min must be <= skip_saturation_max"));
        }
        Ok(())
    }

    fn field_texts(&self) -> (r: Vec<String>)
        requires
            self.wf(),
        ensures
            r@.map_values(|t: String| t@) == self.key_fields(),
    {
        let mut v: Vec<String> = Vec::new();
        v.push(self.backend.to_string());
        v.push(decimal_text(self.thumb_w as u64));
        v.push(decimal_text(self.thumb_h as u64));
        v.push(rgb_to_hex(self.bg_color));
        v.push(decimal_text(self.bg_idx as u64));
        v.push(decimal_text(self.bg_strength as u64));
        v.push(rgb_to_hex(self.fg_color));
        v.push(decimal_text(self.fg_idx as u64));
        v.push(decimal_text(self.fg_strength as u64));
        v.push(flag_text(self.light));
        v.push(flag_text(self.clamp_saturation));
        v.push(flag_text(self.clamp_value));
        v.push(flag_text(self.skip_saturation));
        v.push(flag_text(self.skip_value));
        v.push(bound_text(self.clamp_value_min));
        v.push(bound_text(self.clamp_value_max));
        v.push(bound_text(self.clamp_saturation_min));
        v.push(bound_text(self.clamp_saturation_max));
        v.push(bound_text(self.skip_value_min));
        v.push(bound_text(self.skip_value_max));
        v.push(bound_text(self.skip_saturation_min));
        v.push(bound_text(self.skip_saturation_max));
        assert(v@.map_values(|t: String| t@) =~= self.key_fields());
        v
    }

    /// Fingerprint of the settings: the text of every field, in field order,
    /// joined by `_`.
    pub fn cache_string(&self) -> (r: String)
        requires
            self.wf(),
        ensures
            r@ == self.cache_key(),
    {
        let parts = self.field_texts();
        join_underscore(&parts)
    }

    /// Cache file name for an image: the fingerprint, `_`, and the image
    /// path's last `/`-separated segment.
    pub fn cache_name(&self, image: &str) -> (r: String)
        requires
            self.wf(),
        ensures
            r@ == joined_by(self.key_fields().push(base_name(image@)), '_'),
    {
        let mut parts = self.field_texts();
        let n = image.unicode_len();
        let mut k: usize = n;
        while k > 0 && image.get_char(k - 1) != '/'
            invariant
                n == image@.len(),
                k <= n,
                forall|j: int| k <= j < n ==> image@[j] != '/',
            decreases k,
        {
            k = k - 1;
        }
        proof {
            lemma_base_name_at(image@, k as int);
        }
        let ghost before = parts@;
        parts.push(String::from_str(image.substring_char(k, n)));
        assert(parts@.map_values(|t: String| t@) =~= before.map_values(|t: String| t@).push(
            base_name(image@),
        ));
        join_underscore(&parts)
    }
}

fn decimal_text(n: u64) -> (r: String)
    ensures
        r@ == dec_text(n as nat),
{
    let mut s = String::new();
    push_decimal(&mut s, n);
    assert(s@ =~= dec_text(n as nat));
    s
}

fn flag_text(b: bool) -> (r: String)
    ensures
        r@ == bool_text(b),
{
    let mut s = String::new();
    push_bool(&mut s, b);
    assert(s@ =~= bool_text(b));
    s
}

fn bound_text(t: u16) -> (r: String)
    requires
        t <= 1000,
    ensures
        r@ == thousandths_text(t),
{
    let mut s = String::new();
    push_thousandths(&mut s, t);
    assert(s@ =~= thousandths_text(t));
    s
}

fn join_underscore(parts: &Vec<String>) -> (r: String)
    ensures
        r@ == joined_by(parts@.map_values(|t: String| t@), '_'),
{
    let ghost views = parts@.map_values(|t: String| t@);
    let mut s = String::new();
    let mut i: usize = 0;
    while i < parts.len()
        invariant
            i <= parts@.len(),
            views == parts@.map_values(|t: String| t@),
            s@ == joined_by(views.subrange(0, i as int), '_'),
        decreases parts.len() - i,
    {
        proof {
            assert(views.subrange(0, i + 1).drop_last() =~= views.subrange(0, i as int));
            assert(views.subrange(0, i + 1).last() == parts@[i as int]@);
        }
        if i > 0 {
            push_char(&mut s, '_');
        } else {
            assert(s@ =~= Seq::<char>::empty());
        }
        s.append(parts[i].as_str());
        i = i + 1;
        assert(s@ =~= joined_by(views.subrange(0, i as int), '_'));
    }
    assert(views.subrange(0, parts@.len() as int) =~= views);
    s
}

/// The part of a path after its last `/`; the whole path if it has none.
pub open spec fn base_name(p: Seq<char>) -> Seq<char>
    decreases p.len(),
{
    if p.len() == 0 {
        p
    } else if p.last() == '/' {
        Seq::empty()
    } else {
        base_name(p.drop_last()).push(p.last())
    }
}

proof fn lemma_base_name_at(p: Seq<char>, k: int)
    requires
        0 <= k <= p.len(),
        forall|j: int| k <= j < p.len() ==> p[j] != '/',
        k > 0 ==> p[k - 1] == '/',
    ensures
        base_name(p) == p.subrange(k, p.len() as int),
    decreases p.len(),
{
    if p.len() == 0 {
        assert(p.subrange(k, 0) =~= p);
    } else if k == p.len() {
        assert(p.subrange(k, k) =~= Seq::<char>::empty());
    } else {
        let u = p.drop_last();
        assert(p.last() == p[p.len() - 1]);
        lemma_base_name_at(u, k);
        assert(u.subrange(k, u.len() as int).push(p.last()) =~= p.subrange(k, p.len() as int));
    }
}

impl Default for Config {
    fn default() -> (r: Config)
        ensures
            r.wf(),
            r.backend == Backend::ColorZ,
            r.thumb_w == 100 && r.thumb_h == 100,
            r.bg_color == (0u8, 0u8, 0u8) && r.bg_idx == 0 && r.bg_strength == 10,
            r.fg_color == (255u8, 255u8, 255u8) && r.fg_idx == 0 && r.fg_strength == 10,
            !r.light && r.clamp_saturation && r.clamp_value && r.skip_saturation && !r.skip_value,
            r.clamp_value_min == 400 && r.clamp_value_max == 500,
            r.clamp_saturation_min == 400 && r.clamp_saturation_max == 410,
            r.skip_value_min == 100 && r.skip_value_max == 900,
            r.skip_saturation_min == 300 && r.skip_saturation_max == 700,
    {
        Config {
            backend: Backend::ColorZ,
            thumb_w: 100,
            thumb_h: 100,
            bg_color: (0, 0, 0),
            bg_idx: 0,
            bg_strength: 10,
            fg_color: (255, 255, 255),
            fg_idx: 0,
            fg_strength: 10,
            light: false,
            clamp_saturation: true,
            clamp_value: true,
            skip_saturation: true,
            skip_value: false,
            clamp_value_min: 400,
            clamp_value_max: 500,
            clamp_saturation_min: 400,
            clamp_saturation_max: 410,
            skip_value_min: 100,
            skip_value_max: 900,
            skip_saturation_min: 300,
            skip_saturation_max: 700,
        }
    }
}

proof fn lemma_hex_of_free(c: Color)
    ensures
        free_of(hex_of(c), '_'),
{
    lemma_hex_char_value(c.0 as int / 16);
    lemma_hex_char_value(c.0 as int % 16);
    lemma_hex_char_value(c.1 as int / 16);
    lemma_hex_char_value(c.1 as int % 16);
    lemma_hex_char_value(c.2 as int / 16);
    lemma_hex_char_value(c.2 as int % 16);
    assert(hex_value('_') is None);
    let h = hex_of(c);
    assert forall|i: int| 0 <= i < h.len() implies h[i] != '_' by {
        if i > 0 {
            assert(hex_value(h[i]) is Some);
        }
    }
}

proof fn lemma_dec_free(n: nat)
    ensures
        free_of(dec_text(n), '_'),
{
    lemma_dec_text_digits(n);
    assert forall|i: int| 0 <= i < dec_text(n).len() implies dec_text(n)[i] != '_' by {
        assert(48 <= (dec_text(n)[i] as u32) <= 57);
    }
}

proof fn lemma_bound_free(t: u16)
    ensures
        free_of(thousandths_text(t), '_'),
{
    lemma_thousandths_chars(t);
    assert forall|i: int| 0 <= i < thousandths_text(t).len() implies thousandths_text(t)[i] != '_' by {
        assert(thousandths_text(t)[i] == '.' || 48 <= (thousandths_text(t)[i] as u32) <= 57);
    }
}

proof fn lemma_words()
    ensures
        "colorz"@ =~= seq!['c', 'o', 'l', 'o', 'r', 'z'],
        "colorthief"@ =~= seq!['c', 'o', 'l', 'o', 'r', 't', 'h', 'i', 'e', 'f'],
        "true"@ =~= seq!['t', 'r', 'u', 'e'],
        "false"@ =~= seq!['f', 'a', 'l', 's', 'e'],
{
    reveal_strlit("colorz");
    reveal_strlit("colorthief");
    reveal_strlit("true");
    reveal_strlit("false");
}

proof fn lemma_fields_free(c: Config)
    ensures
        forall|i: int| 0 <= i < c.key_fields().len() ==> free_of(#[trigger] c.key_fields()[i], '_'),
{
    lemma_words();
    let f = c.key_fields();
    lemma_dec_free(c.thumb_w as nat);
    lemma_dec_free(c.thumb_h as nat);
    lemma_dec_free(c.bg_idx as nat);
    lemma_dec_free(c.bg_strength as nat);
    lemma_dec_free(c.fg_idx as nat);
    lemma_dec_free(c.fg_strength as nat);
    lemma_hex_of_free(c.bg_color);
    lemma_hex_of_free(c.fg_color);
    lemma_bound_free(c.clamp_value_min);
    lemma_bound_free(c.clamp_value_max);
    lemma_bound_free(c.clamp_saturation_min);
    lemma_bound_free(c.clamp_saturation_max);
    lemma_bound_free(c.skip_value_min);
    lemma_bound_free(c.skip_value_max);
    lemma_bound_free(c.skip_saturation_min);
    lemma_bound_free(c.skip_saturation_max);
    assert(free_of(c.backend.name(), '_'));
    assert(free_of(bool_text(true), '_'));
    assert(free_of(bool_text(false), '_'));
}

proof fn lemma_fields_equal(a: Config, b: Config, extra_a: Seq<Seq<char>>, extra_b: Seq<Seq<char>>)
    requires
        extra_a.len() == extra_b.len(),
        extra_a.len() <= 1,
        joined_by(a.key_fields() + extra_a, '_') == joined_by(b.key_fields() + extra_b, '_'),
    ensures
        a.key_fields() == b.key_fields(),
        extra_a == extra_b,
{
    lemma_fields_free(a);
    lemma_fields_free(b);
    let fa = a.key_fields() + extra_a;
    let fb = b.key_fields() + extra_b;
    assert forall|i: int| 0 <= i < fa.len() - 1 implies free_of(#[trigger] fa[i], '_') by {
        assert(fa[i] == a.key_fields()[i]);
    }
    assert forall|i: int| 0 <= i < fb.len() - 1 implies free_of(#[trigger] fb[i], '_') by {
        assert(fb[i] == b.key_fields()[i]);
    }
    lemma_joined_by_injective(fa, fb, '_');
    assert(a.key_fields() =~= fa.subrange(0, 22));
    assert(b.key_fields() =~= fb.subrange(0, 22));
    assert(extra_a =~= fa.subrange(22, fa.len() as int));
    assert(extra_b =~= fb.subrange(22, fb.len() as int));
}

proof fn lemma_bool_text_injective(x: bool, y: bool)
    requires
        bool_text(x) == bool_text(y),
    ensures
        x == y,
{
    lemma_words();
}

/// Valid settings with equal field texts are equal.
proof fn lemma_fields_injective(a: Config, b: Config)
    requires
        a.wf(),
        b.wf(),
        a.key_fields() == b.key_fields(),
    ensures
        a == b,
{
    let fa = a.key_fields();
    let fb = b.key_fields();
    lemma_words();
    assert(fa[0] == fb[0]);
    assert(a.backend == b.backend);
    assert(fa[1] == fb[1]);
    lemma_dec_text_injective(a.thumb_w as nat, b.thumb_w as nat);
    assert(fa[2] == fb[2]);
    lemma_dec_text_injective(a.thumb_h as nat, b.thumb_h as nat);
    assert(fa[3] == fb[3]);
    lemma_hex_round_trip(a.bg_color);
    lemma_hex_round_trip(b.bg_color);
    assert(fa[4] == fb[4]);
    lemma_dec_text_injective(a.bg_idx as nat, b.bg_idx as nat);
    assert(fa[5] == fb[5]);
    lemma_dec_text_injective(a.bg_strength as nat, b.bg_strength as nat);
    assert(fa[6] == fb[6]);
    lemma_hex_round_trip(a.fg_color);
    lemma_hex_round_trip(b.fg_color);
    assert(fa[7] == fb[7]);
    lemma_dec_text_injective(a.fg_idx as nat, b.fg_idx as nat);
    assert(fa[8] == fb[8]);
    lemma_dec_text_injective(a.fg_strength as nat, b.fg_strength as nat);
    assert(fa[9] == fb[9]);
    lemma_bool_text_injective(a.light, b.light);
    assert(fa[10] == fb[10]);
    lemma_bool_text_injective(a.clamp_saturation, b.clamp_saturation);
    assert(fa[11] == fb[11]);
    lemma_bool_text_injective(a.clamp_value, b.clamp_value);
    assert(fa[12] == fb[12]);
    lemma_bool_text_injective(a.skip_saturation, b.skip_saturation);
    assert(fa[13] == fb[13]);
    lemma_bool_text_injective(a.skip_value, b.skip_value);
    assert(fa[14] == fb[14]);
    lemma_thousandths_injective(a.clamp_value_min, b.clamp_value_min);
    assert(fa[15] == fb[15]);
    lemma_thousandths_injective(a.clamp_value_max, b.clamp_value_max);
    assert(fa[16] == fb[16]);
    lemma_thousandths_injective(a.clamp_saturation_min, b.clamp_saturation_min);
    assert(fa[17] == fb[17]);
    lemma_thousandths_injective(a.clamp_saturation_max, b.clamp_saturation_max);
    assert(fa[18] == fb[18]);
    lemma_thousandths_injective(a.skip_value_min, b.skip_value_min);
    assert(fa[19] == fb[19]);
    lemma_thousandths_injective(a.skip_value_max, b.skip_value_max);
    assert(fa[20] == fb[20]);
    lemma_thousandths_injective(a.skip_saturation_min, b.skip_saturation_min);
    assert(fa[21] == fb[21]);
    lemma_thousandths_injective(a.skip_saturation_max, b.skip_saturation_max);
}

/// Valid settings that differ in any field have different fingerprints.
pub proof fn lemma_cache_key_injective(a: Config, b: Config)
    requires
        a.wf(),
        b.wf(),
        a.cache_key() == b.cache_key(),
    ensures
        a == b,
{
    let e = Seq::<Seq<char>>::empty();
    assert(a.key_fields() + e =~= a.key_fields());
    assert(b.key_fields() + e =~= b.key_fields());
    lemma_fields_equal(a, b, e, e);
    lemma_fields_injective(a, b);
}

/// Cache file names of valid settings and image paths are equal only for
/// equal settings and equal last path segments.
pub proof fn lemma_cache_name_injective(a: Config, b: Config, p: Seq<char>, q: Seq<char>)
    requires
        a.wf(),
        b.wf(),
        joined_by(a.key_fields().push(base_name(p)), '_') == joined_by(
            b.key_fields().push(base_name(q)),
            '_',
        ),
    ensures
        a == b,
        base_name(p) == base_name(q),
{
    let ea = seq![base_name(p)];
    let eb = seq![base_name(q)];
    assert(a.key_fields() + ea =~= a.key_fields().push(base_name(p)));
    assert(b.key_fields() + eb =~= b.key_fields().push(base_name(q)));
    lemma_fields_equal(a, b, ea, eb);
    assert(ea[0] == eb[0]);
    lemma_fields_injective(a, b);
}

/// Settings that differ only in the thumbnail width have different
/// fingerprints; identical settings have identical ones.
pub proof fn lemma_fingerprint_sensitive_to_width(a: Config, w: u32)
    ensures
        w != a.thumb_w ==> (Config { thumb_w: w, ..a }).cache_key() != a.cache_key(),
        (Config { thumb_w: a.thumb_w, ..a }).cache_key() == a.cache_key(),
{
    let b = Config { thumb_w: w, ..a };
    if w != a.thumb_w && b.cache_key() == a.cache_key() {
        let e = Seq::<Seq<char>>::empty();
        assert(a.key_fields() + e =~= a.key_fields());
        assert(b.key_fields() + e =~= b.key_fields());
        lemma_fields_equal(b, a, e, e);
        assert(b.key_fields()[1] == a.key_fields()[1]);
        lemma_dec_text_injective(w as nat, a.thumb_w as nat);
    }
}

} // verus!
