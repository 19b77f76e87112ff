//! Character-level text building used by the hex and fingerprint encoders.
use vstd::prelude::*;
use vstd::string::StringExecFns;
use vstd::string::StrSliceExecFns;

verus! {

/// Relies on `String::push`: appends one character at the end.
#[verifier::external_body]
pub(crate) fn push_char(s: &mut String, c: char)
    ensures
        final(s)@ == old(s)@.push(c),
{
    s.push(c)
}

/// The ten decimal digits, in order.
pub open spec fn dec_char(n: int) -> char {
    seq!['0', '1', '2', '3', '4', '5', '6', '7', '8', '9'][n]
}

/// Decimal rendering of a natural number, most significant digit first.
pub open spec fn dec_text(n: nat) -> Seq<char>
    decreases n,
{
    if n < 10 {
        seq![dec_char(n as int)]
    } else {
        dec_text(n / 10).push(dec_char((n % 10) as int))
    }
}

pub fn digit_char(d: u64) -> (c: char)
    requires
        d < 10,
    ensures
        c == dec_char(d as int),
{
    let c = if d == 0 { '0' } else if d == 1 { '1' } else if d == 2 { '2' } else if d == 3 {
        '3'
    } else if d == 4 { '4' } else if d == 5 { '5' } else if d == 6 { '6' } else if d == 7 {
        '7'
    } else if d == 8 { '8' } else { '9' };
    c
}

/// Appends the decimal rendering of `n`.
pub fn push_decimal(s: &mut String, n: u64)
    ensures
        final(s)@ == old(s)@ + dec_text(n as nat),
    decreases n,
{
    if n >= 10 {
        push_decimal(s, n / 10);
    }
    let c = digit_char(n % 10);
    push_char(s, c);
    assert(final(s)@ =~= old(s)@ + dec_text(n as nat));
}

/// Whether two strings hold the same characters.
pub fn str_eq(a: &str, b: &str) -> (r: bool)
    ensures
        r == (a@ == b@),
{
    let n = a.unicode_len();
    if n != b.unicode_len() {
        return false;
    }
    let mut i: usize = 0;
    while i < n
        invariant
            n == a@.len(),
            n == b@.len(),
            i <= n,
            a@.subrange(0, i as int) == b@.subrange(0, i as int),
        decreases n - i,
    {
        if a.get_char(i) != b.get_char(i) {
            return false;
        }
        i = i + 1;
        assert(a@.subrange(0, i as int) =~= a@.subrange(0, i - 1).push(a@[i - 1]));
        assert(b@.subrange(0, i as int) =~= b@.subrange(0, i - 1).push(b@[i - 1]));
    }
    assert(a@ =~= a@.subrange(0, n as int));
    assert(b@ =~= b@.subrange(0, n as int));
    true
}

/// `true` or `false`.
pub open spec fn bool_text(b: bool) -> Seq<char> {
    if b {
        "true"@
    } else {
        "false"@
    }
}

/// Appends `true` or `false`.
pub fn push_bool(s: &mut String, b: bool)
    ensures
        final(s)@ == old(s)@ + bool_text(b),
{
    if b {
        s.append("true");
    } else {
        s.append("false");
    }
}

/// Shortest decimal text of `t / 1000` for `t` in [0, 1000]: `0`, `1`, or
/// `0.` followed by up to three digits without trailing zeros.
pub open spec fn thousandths_text(t: u16) -> Seq<char> {
    let d1 = t as int / 100;
    let d2 = (t as int / 10) % 10;
    let d3 = t as int % 10;
    if t == 0 {
        seq!['0']
    } else if t >= 1000 {
        seq!['1']
    } else if d3 != 0 {
        seq!['0', '.', dec_char(d1), dec_char(d2), dec_char(d3)]
    } else if d2 != 0 {
        seq!['0', '.', dec_char(d1), dec_char(d2)]
    } else {
        seq!['0', '.', dec_char(d1)]
    }
}

/// Appends the shortest decimal text of `t / 1000`.
pub fn push_thousandths(s: &mut String, t: u16)
    requires
        t <= 1000,
    ensures
        final(s)@ == old(s)@ + thousandths_text(t),
{
    if t == 0 {
        push_char(s, '0');
    } else if t >= 1000 {
        push_char(s, '1');
    } else {
        let t64 = t as u64;
        let d1 = t64 / 100;
        let d2 = (t64 / 10) % 10;
        let d3 = t64 % 10;
        push_char(s, '0');
        push_char(s, '.');
        push_char(s, digit_char(d1));
        if d3 != 0 {
            push_char(s, digit_char(d2));
            push_char(s, digit_char(d3));
        } else if d2 != 0 {
            push_char(s, digit_char(d2));
        }
    }
    assert(final(s)@ =~= old(s)@ + thousandths_text(t));
}

/// No character of `s` is `c`.
pub open spec fn free_of(s: Seq<char>, c: char) -> bool {
    forall|i: int| 0 <= i < s.len() ==> s[i] != c
}

/// The parts joined by `sep`.
pub open spec fn joined_by(parts: Seq<Seq<char>>, sep: char) -> Seq<char>
    decreases parts.len(),
{
    if parts.len() == 0 {
        Seq::empty()
    } else if parts.len() == 1 {
        parts[0]
    } else {
        joined_by(parts.drop_last(), sep) + seq![sep] + parts.last()
    }
}

proof fn lemma_joined_by_front(parts: Seq<Seq<char>>, sep: char)
    requires
        parts.len() >= 2,
    ensures
        joined_by(parts, sep) == parts[0] + seq![sep] + joined_by(parts.drop_first(), sep),
    decreases parts.len(),
{
    let rest = parts.drop_first();
    if parts.len() == 2 {
        assert(parts.drop_last().len() == 1);
        assert(rest.len() == 1);
        assert(joined_by(parts.drop_last(), sep) == parts[0]);
        assert(joined_by(rest, sep) == rest[0]);
    } else {
        let init = parts.drop_last();
        lemma_joined_by_front(init, sep);
        assert(init.drop_first() =~= rest.drop_last());
        assert(rest.last() == parts.last());
        assert(joined_by(rest, sep) == joined_by(rest.drop_last(), sep) + seq![sep] + rest.last());
        assert(joined_by(parts, sep) =~= parts[0] + seq![sep] + joined_by(rest, sep));
    }
}

/// Joining by a separator that no part but the last holds can be undone:
/// equal joined texts come from equal parts.
pub proof fn lemma_joined_by_injective(a: Seq<Seq<char>>, b: Seq<Seq<char>>, sep: char)
    requires
        a.len() == b.len(),
        a.len() >= 1,
        forall|i: int| 0 <= i < a.len() - 1 ==> free_of(#[trigger] a[i], sep),
        forall|i: int| 0 <= i < b.len() - 1 ==> free_of(#[trigger] b[i], sep),
        joined_by(a, sep) == joined_by(b, sep),
    ensures
        a == b,
    decreases a.len(),
{
    if a.len() == 1 {
        assert(a =~= b);
    } else {
        lemma_joined_by_front(a, sep);
        lemma_joined_by_front(b, sep);
        let x = joined_by(a, sep);
        let a0 = a[0];
        let b0 = b[0];
        assert(free_of(a0, sep));
        assert(free_of(b0, sep));
        if a0.len() < b0.len() {
            assert(x[a0.len() as int] == sep);
            assert(x[a0.len() as int] == b0[a0.len() as int]);
        } else if b0.len() < a0.len() {
            assert(x[b0.len() as int] == sep);
            assert(x[b0.len() as int] == a0[b0.len() as int]);
        }
        assert(a0 =~= x.subrange(0, a0.len() as int));
        assert(b0 =~= x.subrange(0, b0.len() as int));
        let ra = a.drop_first();
        let rb = b.drop_first();
        assert(joined_by(ra, sep) =~= x.subrange(a0.len() as int + 1, x.len() as int));
        assert(joined_by(rb, sep) =~= x.subrange(b0.len() as int + 1, x.len() as int));
        assert forall|i: int| 0 <= i < ra.len() - 1 implies free_of(#[trigger] ra[i], sep) by {
            assert(ra[i] == a[i + 1]);
        }
        assert forall|i: int| 0 <= i < rb.len() - 1 implies free_of(#[trigger] rb[i], sep) by {
            assert(rb[i] == b[i + 1]);
        }
        lemma_joined_by_injective(ra, rb, sep);
        assert(a =~= b) by {
            assert forall|i: int| 0 <= i < a.len() implies a[i] == b[i] by {
                if i > 0 {
                    assert(a[i] == ra[i - 1]);
                    assert(b[i] == rb[i - 1]);
                }
            }
        }
    }
}

/// Decimal text holds digits only.
pub proof fn lemma_dec_text_digits(n: nat)
    ensures
        forall|i: int| 0 <= i < dec_text(n).len() ==> 48 <= #[trigger] (dec_text(n)[i] as u32) <= 57,
    decreases n,
{
    if n < 10 {
        lemma_dec_char_code(n as int);
        assert(dec_text(n) == seq![dec_char(n as int)]);
        let t = seq![dec_char(n as int)];
        assert(t[0] == dec_char(n as int));
    } else {
        lemma_dec_text_digits(n / 10);
        lemma_dec_char_code((n % 10) as int);
        let t = dec_text(n / 10);
        assert(dec_text(n) == t.push(dec_char((n % 10) as int)));
        assert forall|i: int| 0 <= i < dec_text(n).len() implies 48 <= #[trigger] (dec_text(n)[i] as u32) <= 57 by {
            if i < t.len() {
                assert(dec_text(n)[i] == t[i]);
            }
        }
    }
}

/// Text of thousandths holds digits and a point only.
pub proof fn lemma_thousandths_chars(t: u16)
    ensures
        forall|i: int| 0 <= i < thousandths_text(t).len() ==> (#[trigger] thousandths_text(t)[i] == '.'
            || 48 <= (thousandths_text(t)[i] as u32) <= 57),
{
    let d1 = t as int / 100;
    let d2 = (t as int / 10) % 10;
    let d3 = t as int % 10;
    if t > 0 && t < 1000 {
        lemma_dec_char_code(d1);
        lemma_dec_char_code(d2);
        lemma_dec_char_code(d3);
    }
    let s = thousandths_text(t);
    assert forall|i: int| 0 <= i < s.len() implies (#[trigger] s[i] == '.' || 48 <= (s[i] as u32) <= 57) by {
        if t == 0 {
            assert(s == seq!['0']);
        } else if t >= 1000 {
            assert(s == seq!['1']);
        } else if d3 != 0 {
            assert(s == seq!['0', '.', dec_char(d1), dec_char(d2), dec_char(d3)]);
        } else if d2 != 0 {
            assert(s == seq!['0', '.', dec_char(d1), dec_char(d2)]);
        } else {
            assert(s == seq!['0', '.', dec_char(d1)]);
        }
    }
}

/// Distinct thousandths in [0, 1000] have distinct texts.
pub proof fn lemma_thousandths_injective(a: u16, b: u16)
    requires
        a <= 1000,
        b <= 1000,
        thousandths_text(a) == thousandths_text(b),
    ensures
        a == b,
{
    let a1 = a as int / 100;
    let a2 = (a as int / 10) % 10;
    let a3 = a as int % 10;
    let b1 = b as int / 100;
    let b2 = (b as int / 10) % 10;
    let b3 = b as int % 10;
    let sa = thousandths_text(a);
    let sb = thousandths_text(b);
    if a > 0 && a < 1000 {
        lemma_dec_char_code(a1);
        lemma_dec_char_code(a2);
        lemma_dec_char_code(a3);
    }
    if b > 0 && b < 1000 {
        lemma_dec_char_code(b1);
        lemma_dec_char_code(b2);
        lemma_dec_char_code(b3);
    }
    if a == 0 || a >= 1000 || b == 0 || b >= 1000 {
        if a > 0 && a < 1000 {
            assert(sa.len() >= 3);
        }
        if b > 0 && b < 1000 {
            assert(sb.len() >= 3);
        }
        if a == 0 && b >= 1000 {
            assert(sa[0] == '0');
            assert(sb[0] == '1');
        }
        if b == 0 && a >= 1000 {
            assert(sb[0] == '0');
            assert(sa[0] == '1');
        }
    } else {
        assert(sa[2] == dec_char(a1));
        assert(sb[2] == dec_char(b1));
        assert(a1 == b1);
        if sa.len() >= 4 {
            assert(sa[3] == dec_char(a2));
            assert(sb[3] == dec_char(b2));
        }
        if sa.len() == 5 {
            assert(sa[4] == dec_char(a3));
            assert(sb[4] == dec_char(b3));
        }
        assert(a2 == b2);
        assert(a3 == b3);
        assert(a == a1 * 100 + a2 * 10 + a3);
        assert(b == b1 * 100 + b2 * 10 + b3);
    }
}

/// Decimal renderings of distinct numbers are distinct.
pub proof fn lemma_dec_text_injective(a: nat, b: nat)
    requires
        dec_text(a) == dec_text(b),
    ensures
        a == b,
    decreases a + b,
{
    if a < 10 && b < 10 {
        assert(dec_text(a) == seq![dec_char(a as int)]);
        assert(dec_text(b) == seq![dec_char(b as int)]);
        let sa = seq![dec_char(a as int)];
        let sb = seq![dec_char(b as int)];
        assert(sa[0] == dec_char(a as int));
        assert(sb[0] == dec_char(b as int));
        lemma_dec_char_code(a as int);
        lemma_dec_char_code(b as int);
        assert(a == b);
    } else if a >= 10 && b >= 10 {
        let ta = dec_text(a / 10);
        let tb = dec_text(b / 10);
        assert(ta.push(dec_char((a % 10) as int)).drop_last() =~= ta);
        assert(tb.push(dec_char((b % 10) as int)).drop_last() =~= tb);
        assert(dec_text(a) == ta.push(dec_char((a % 10) as int)));
        assert(dec_text(b) == tb.push(dec_char((b % 10) as int)));
        assert(ta == tb);
        assert(dec_text(a)[ta.len() as int] == dec_text(b)[tb.len() as int]);
        assert(dec_char((a % 10) as int) == dec_char((b % 10) as int));
        lemma_dec_char_code(a as int % 10);
        lemma_dec_char_code(b as int % 10);
        lemma_dec_text_injective(a / 10, b / 10);
        assert(a % 10 == b % 10);
        assert(a == (a / 10) * 10 + a % 10);
        assert(b == (b / 10) * 10 + b % 10);
    } else if a < 10 {
        lemma_dec_text_nonempty(b / 10);
        assert(dec_text(a).len() == 1);
        assert(dec_text(b).len() == dec_text(b / 10).len() + 1);
    } else {
        lemma_dec_text_nonempty(a / 10);
        assert(dec_text(b).len() == 1);
        assert(dec_text(a).len() == dec_text(a / 10).len() + 1);
    }
}

pub(crate) proof fn lemma_dec_char_code(n: int)
    requires
        0 <= n < 10,
    ensures
        dec_char(n) as u32 == 48 + n,
{
    let d = seq!['0', '1', '2', '3', '4', '5', '6', '7', '8', '9'];
    assert(dec_char(n) == d[n]);
    if n == 0 {} else if n == 1 {} else if n == 2 {} else if n == 3 {} else if n == 4 {}
    else if n == 5 {} else if n == 6 {} else if n == 7 {} else if n == 8 {} else {}
}

pub proof fn lemma_dec_text_nonempty(n: nat)
    ensures
        dec_text(n).len() >= 1,
    decreases n,
{
    if n >= 10 {
        lemma_dec_text_nonempty(n / 10);
    }
}

} // verus!
