//! The help text of a flag store.
use vstd::prelude::*;
use vstd::string::StringExecFns;
use vstd::string::StrSliceExecFns;
use vstd::utf8::encode_utf8;
use vstd::string::StringSliceAdditionalSpecFns;
use crate::flag::{Flag, Type, string_views};
use crate::text::push_char;

verus! {

/// Code-point (equivalently, UTF-8 byte) lexicographic order.
pub open spec fn lex_le(a: Seq<char>, b: Seq<char>) -> bool
    decreases a.len(),
{
    if a.len() == 0 {
        true
    } else if b.len() == 0 {
        false
    } else if a[0] != b[0] {
        (a[0] as u32) < (b[0] as u32)
    } else {
        lex_le(a.drop_first(), b.drop_first())
    }
}

proof fn lemma_lex_le_skip(a: Seq<char>, b: Seq<char>, i: int)
    requires
        0 <= i <= a.len(),
        i <= b.len(),
        forall|j: int| 0 <= j < i ==> a[j] == b[j],
    ensures
        lex_le(a, b) == lex_le(a.subrange(i, a.len() as int), b.subrange(i, b.len() as int)),
    decreases i,
{
    if i == 0 {
        assert(a.subrange(0, a.len() as int) =~= a);
        assert(b.subrange(0, b.len() as int) =~= b);
    } else {
        let a1 = a.drop_first();
        let b1 = b.drop_first();
        assert(a[0] == b[0]);
        lemma_lex_le_skip(a1, b1, i - 1);
        assert(a1.subrange(i - 1, a1.len() as int) =~= a.subrange(i, a.len() as int));
        assert(b1.subrange(i - 1, b1.len() as int) =~= b.subrange(i, b.len() as int));
    }
}

fn text_le(a: &str, b: &str) -> (r: bool)
    ensures
        r == lex_le(a@, b@),
{
    let na = a.unicode_len();
    let nb = b.unicode_len();
    let mut i: usize = 0;
    while i < na && i < nb && a.get_char(i) == b.get_char(i)
        invariant
            na == a@.len(),
            nb == b@.len(),
            i <= na,
            i <= nb,
            forall|j: int| 0 <= j < i ==> a@[j] == b@[j],
        decreases na - i,
    {
        i = i + 1;
    }
    proof {
        lemma_lex_le_skip(a@, b@, i as int);
        let ra = a@.subrange(i as int, na as int);
        let rb = b@.subrange(i as int, nb as int);
        if i < na && i < nb {
            assert(ra[0] == a@[i as int]);
            assert(rb[0] == b@[i as int]);
        }
    }
    if i == na {
        true
    } else if i == nb {
        false
    } else {
        (a.get_char(i) as u32) < (b.get_char(i) as u32)
    }
}

/// Puts `x` after the last entry of `t` that is not greater.
pub open spec fn insert_text(t: Seq<Seq<char>>, x: Seq<char>) -> Seq<Seq<char>>
    decreases t.len(),
{
    if t.len() == 0 {
        seq![x]
    } else if lex_le(t.last(), x) {
        t.push(x)
    } else {
        insert_text(t.drop_last(), x).push(t.last())
    }
}

/// Stable lexicographic sort.
pub open spec fn sorted_texts(s: Seq<Seq<char>>) -> Seq<Seq<char>>
    decreases s.len(),
{
    if s.len() == 0 {
        Seq::empty()
    } else {
        insert_text(sorted_texts(s.drop_last()), s.last())
    }
}

/// The lines joined by newlines.
pub open spec fn joined_lines(s: Seq<Seq<char>>) -> Seq<char>
    decreases s.len(),
{
    if s.len() == 0 {
        Seq::empty()
    } else if s.len() == 1 {
        s[0]
    } else {
        joined_lines(s.drop_last()) + seq!['\n'] + s.last()
    }
}

pub open spec fn spaces(n: nat) -> Seq<char> {
    Seq::new(n, |i: int| ' ')
}

/// Padding after a flag name of `n` bytes: up to the indentation, or
/// the indentation and a line break for a name longer than it.
pub open spec fn padding(n: nat, indentation: nat) -> Seq<char> {
    if n > indentation {
        spaces(indentation) + "  \n"@
    } else {
        spaces((indentation - n) as nat)
    }
}

/// `[key, kind]`
pub open spec fn usage_entry(d: (Seq<char>, Seq<char>, Type)) -> Seq<char> {
    "["@ + d.0 + ", "@ + d.2.label() + "]"@
}

/// `  key<padding> description`, padded by the key's length in UTF-8 bytes.
pub open spec fn option_entry(d: (Seq<char>, Seq<char>, Type), indentation: nat) -> Seq<char> {
    "  "@ + d.0 + padding(encode_utf8(d.0).len(), indentation) + " "@ + d.1
}

/// The help text: the usage line with the sorted `[key, kind]` entries, then
/// the options with their descriptions in the order they were described.
pub open spec fn help_text(
    descs: Seq<(Seq<char>, Seq<char>, Type)>,
    package_name: Seq<char>,
    indentation: nat,
) -> Seq<char> {
    "usage: "@ + package_name + " "@ + joined_lines(
        sorted_texts(descs.map_values(|d: (Seq<char>, Seq<char>, Type)| usage_entry(d))),
    ) + "\n"@ + "options:\n"@ + joined_lines(
        descs.map_values(|d: (Seq<char>, Seq<char>, Type)| option_entry(d, indentation)),
    )
}

proof fn lemma_insert_text_at(t: Seq<Seq<char>>, x: Seq<char>, k: int)
    requires
        0 <= k <= t.len(),
        forall|j: int| k <= j < t.len() ==> !lex_le(#[trigger] t[j], x),
        k > 0 ==> lex_le(t[k - 1], x),
    ensures
        insert_text(t, x) == t.insert(k, x),
    decreases t.len(),
{
    if t.len() == 0 {
        assert(t.insert(k, x) =~= seq![x]);
    } else if k == t.len() {
        assert(t.insert(k, x) =~= t.push(x));
    } else {
        let u = t.drop_last();
        assert(!lex_le(t[t.len() - 1], x));
        assert forall|j: int| k <= j < u.len() implies !lex_le(#[trigger] u[j], x) by {
            assert(u[j] == t[j]);
        }
        lemma_insert_text_at(u, x, k);
        assert(u.insert(k, x).push(t.last()) =~= t.insert(k, x));
    }
}

fn push_spaces(s: &mut String, n: usize)
    ensures
        final(s)@ == old(s)@ + spaces(n as nat),
{
    let mut i: usize = 0;
    while i < n
        invariant
            i <= n,
            s@ == old(s)@ + spaces(i as nat),
        decreases n - i,
    {
        push_char(s, ' ');
        i = i + 1;
        assert(s@ =~= old(s)@ + spaces(i as nat));
    }
}

fn push_joined(s: &mut String, lines: &Vec<String>)
    ensures
        final(s)@ == old(s)@ + joined_lines(string_views(lines@)),
{
    let mut i: usize = 0;
    while i < lines.len()
        invariant
            i <= lines@.len(),
            s@ == old(s)@ + joined_lines(string_views(lines@.subrange(0, i as int))),
        decreases lines.len() - i,
    {
        proof {
            assert(string_views(lines@.subrange(0, i + 1)).drop_last() =~= string_views(
                lines@.subrange(0, i as int),
            ));
        }
        if i > 0 {
            push_char(s, '\n');
        } else {
            assert(string_views(lines@.subrange(0, 0)) =~= Seq::<Seq<char>>::empty());
        }
        s.append(lines[i].as_str());
        i = i + 1;
        assert(s@ =~= old(s)@ + joined_lines(string_views(lines@.subrange(0, i as int))));
    }
    assert(lines@.subrange(0, lines@.len() as int) =~= lines@);
}

impl Flag {
    /// The usage line listing `[key, kind]` for every described flag in
    /// sorted order, then each flag with its description. Widths count
    /// UTF-8 bytes.
    pub fn help(&self, package_name: &str, indentation: usize) -> (r: String)
        ensures
            r@ == help_text(self.descs_view(), package_name@, indentation as nat),
    {
        let n = self.descriptions_len();
        let ghost descs = self.descs_view();
        let ghost usage_all = descs.map_values(|d: (Seq<char>, Seq<char>, Type)| usage_entry(d));
        let ghost option_all = descs.map_values(
            |d: (Seq<char>, Seq<char>, Type)| option_entry(d, indentation as nat),
        );
        let mut usage: Vec<String> = Vec::new();
        let mut options: Vec<String> = Vec::new();
        let mut i: usize = 0;
        while i < n
            invariant
                n == descs.len(),
                descs == self.descs_view(),
                usage_all == descs.map_values(|d: (Seq<char>, Seq<char>, Type)| usage_entry(d)),
                option_all == descs.map_values(
                    |d: (Seq<char>, Seq<char>, Type)| option_entry(d, indentation as nat),
                ),
                i <= n,
                string_views(usage@) == sorted_texts(usage_all.subrange(0, i as int)),
                string_views(options@) == option_all.subrange(0, i as int),
            decreases n - i,
        {
            let (key, desc, kind) = self.description(i);
            let mut u = String::new();
            u.append("[");
            u.append(key);
            u.append(", ");
            u.append(kind.name());
            u.append("]");
            assert(u@ =~= usage_entry(descs[i as int]));
            let mut o = String::new();
            o.append("  ");
            o.append(key);
            let klen = key.as_bytes().len();
            assert(key.spec_bytes() == encode_utf8(key@));
            if klen > indentation {
                push_spaces(&mut o, indentation);
                o.append("  \n");
            } else {
                push_spaces(&mut o, indentation - klen);
            }
            o.append(" ");
            o.append(desc);
            assert(o@ =~= option_entry(descs[i as int], indentation as nat));
            let mut k: usize = usage.len();
            proof {
                assert(sorted_texts(usage_all.subrange(0, i as int)).len() == i) by {
                    lemma_sorted_texts_len(usage_all.subrange(0, i as int));
                }
            }
            while k > 0 && !text_le(usage[k - 1].as_str(), u.as_str())
                invariant
                    k <= usage@.len(),
                    forall|j: int| k <= j < usage@.len() ==> !lex_le(#[trigger] usage@[j]@, u@),
                decreases k,
            {
                k = k - 1;
            }
            proof {
                let sv = string_views(usage@);
                assert forall|j: int| k <= j < sv.len() implies !lex_le(#[trigger] sv[j], u@) by {
                    assert(sv[j] == usage@[j]@);
                }
                if k > 0 {
                    assert(sv[k - 1] == usage@[k - 1]@);
                }
                lemma_insert_text_at(sv, u@, k as int);
                assert(usage_all.subrange(0, i + 1).drop_last() =~= usage_all.subrange(0, i as int));
                assert(usage_all.subrange(0, i + 1).last() == u@);
            }
            let ghost before = string_views(usage@);
            let ghost uv = u@;
            let ghost obefore = string_views(options@);
            let ghost ov = o@;
            assert(option_all[i as int] == ov);
            assert(option_all.subrange(0, i + 1) =~= option_all.subrange(0, i as int).push(ov));
            usage.insert(k, u);
            options.push(o);
            i = i + 1;
            assert(string_views(usage@) =~= before.insert((k) as int, uv));
            assert(string_views(options@) =~= obefore.push(ov));
        }
        let mut s = String::new();
        s.append("usage: ");
        s.append(package_name);
        s.append(" ");
        push_joined(&mut s, &usage);
        s.append("\n");
        s.append("options:\n");
        push_joined(&mut s, &options);
        assert(usage_all.subrange(0, n as int) =~= usage_all);
        assert(option_all.subrange(0, n as int) =~= option_all);
        assert(s@ =~= help_text(descs, package_name@, indentation as nat));
        s
    }
}

proof fn lemma_insert_text_len(t: Seq<Seq<char>>, x: Seq<char>)
    ensures
        insert_text(t, x).len() == t.len() + 1,
    decreases t.len(),
{
    if t.len() > 0 {
        lemma_insert_text_len(t.drop_last(), x);
    }
}

proof fn lemma_sorted_texts_len(s: Seq<Seq<char>>)
    ensures
        sorted_texts(s).len() == s.len(),
    decreases s.len(),
{
    if s.len() > 0 {
        lemma_sorted_texts_len(s.drop_last());
        lemma_insert_text_len(sorted_texts(s.drop_last()), s.last());
    }
}

} // verus!
