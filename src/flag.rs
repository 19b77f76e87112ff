//! A small command-line flag store: `-k value`, `-k=value` and bare `-k`.
use vstd::prelude::*;
use vstd::string::StrSliceExecFns;
use vstd::string::StringExecFns;
use crate::text::str_eq;

verus! {

/// The kind of value a described flag takes.
#[derive(Clone, Copy, Debug, PartialEq, Eq, Structural)]
pub enum Type {
    String,
    Number,
    Double,
    Unsigned,
    Bool,
    Complex,
}

impl Type {
    /// The kind's name as the help text shows it.
    pub open spec fn label(self) -> Seq<char> {
        match self {
            Type::String => "string"@,
            Type::Number => "integer"@,
            Type::Double => "float"@,
            Type::Unsigned => "unsigned"@,
            Type::Bool => "bool"@,
            Type::Complex => "complex"@,
        }
    }

    /// The kind's name as the help text shows it.
    pub fn name(&self) -> (r: &'static str)
        ensures
            r@ == self.label(),
    {
        match self {
            Type::String => "string",
            Type::Number => "integer",
            Type::Double => "float",
            Type::Unsigned => "unsigned",
            Type::Bool => "bool",
            Type::Complex => "complex",
        }
    }
}

/// Command-line arguments, with the values given to flags and the
/// descriptions of the flags that were asked for.
pub struct Flag {
    descriptions: Vec<(String, String, Type)>,
    values: Vec<(String, String)>,
    args: Vec<String>,
    help_message_prefix: Option<String>,
}

/// Parser state: the (flag, value) pairs so far, and the flag still waiting
/// for its value.
pub type ParseState = (Seq<(Seq<char>, Seq<char>)>, Option<Seq<char>>);

pub open spec fn is_flag(a: Seq<char>) -> bool {
    a.len() > 0 && a[0] == '-'
}

/// Index of the first `=` in `a`, if any.
pub open spec fn first_eq(a: Seq<char>) -> Option<int>
    decreases a.len(),
{
    if a.len() == 0 {
        None
    } else {
        match first_eq(a.drop_last()) {
            Some(i) => Some(i),
            None => if a.last() == '=' {
                Some(a.len() - 1)
            } else {
                None
            },
        }
    }
}

/// One argument read: `-k=v` records `v` for `-k`; `-k` waits for a value;
/// anything else is the value of the waiting flag, if there is one.
pub open spec fn parse_step(st: ParseState, a: Seq<char>) -> ParseState {
    if is_flag(a) && first_eq(a) is Some {
        let i = first_eq(a)->Some_0;
        (st.0.push((a.subrange(0, i), a.subrange(i + 1, a.len() as int))), st.1)
    } else if is_flag(a) {
        (st.0, Some(a))
    } else {
        match st.1 {
            Some(f) => (st.0.push((f, a)), None),
            None => st,
        }
    }
}

pub open spec fn parse_args(args: Seq<Seq<char>>) -> ParseState
    decreases args.len(),
{
    if args.len() == 0 {
        (Seq::empty(), None)
    } else {
        parse_step(parse_args(args.drop_last()), args.last())
    }
}

/// The value recorded last for `key`.
pub open spec fn lookup(pairs: Seq<(Seq<char>, Seq<char>)>, key: Seq<char>) -> Option<Seq<char>>
    decreases pairs.len(),
{
    if pairs.len() == 0 {
        None
    } else if pairs.last().0 == key {
        Some(pairs.last().1)
    } else {
        lookup(pairs.drop_last(), key)
    }
}

pub open spec fn string_views(v: Seq<String>) -> Seq<Seq<char>> {
    v.map_values(|s: String| s@)
}

pub open spec fn pair_views(v: Seq<(String, String)>) -> Seq<(Seq<char>, Seq<char>)> {
    v.map_values(|p: (String, String)| (p.0@, p.1@))
}

pub open spec fn is_digit(c: char) -> bool {
    '0' <= c && c <= '9'
}

/// Value of a string of decimal digits.
pub open spec fn digits_value(s: Seq<char>) -> int
    decreases s.len(),
{
    if s.len() == 0 {
        0
    } else {
        digits_value(s.drop_last()) * 10 + (s.last() as u32 - '0' as u32)
    }
}

/// The text after an optional leading `+`.
pub open spec fn unsigned_body(s: Seq<char>) -> Seq<char> {
    if s.len() > 0 && s[0] == '+' {
        s.drop_first()
    } else {
        s
    }
}

pub open spec fn all_digits(s: Seq<char>) -> bool {
    forall|i: int| 0 <= i < s.len() ==> is_digit(#[trigger] s[i])
}

/// What `str::parse::<u32>` accepts: an optional `+`, then one or more
/// decimal digits whose value fits in 32 bits.
pub open spec fn parse_u32(s: Seq<char>) -> Option<u32> {
    let body = unsigned_body(s);
    if body.len() > 0 && all_digits(body) && digits_value(body) <= u32::MAX {
        Some(digits_value(body) as u32)
    } else {
        None
    }
}

proof fn lemma_digits_value_grows(s: Seq<char>, k: int)
    requires
        0 <= k <= s.len(),
        forall|i: int| 0 <= i < s.len() ==> is_digit(#[trigger] s[i]),
    ensures
        digits_value(s.subrange(0, k)) <= digits_value(s),
        digits_value(s) >= 0,
    decreases s.len(),
{
    if s.len() > 0 {
        let u = s.drop_last();
        assert forall|i: int| 0 <= i < u.len() implies is_digit(#[trigger] u[i]) by {
            assert(u[i] == s[i]);
        }
        if k == s.len() {
            assert(s.subrange(0, k) =~= s);
            lemma_digits_value_grows(u, 0);
        } else {
            assert(s.subrange(0, k) =~= u.subrange(0, k));
            lemma_digits_value_grows(u, k);
        }
        assert(is_digit(s[s.len() - 1]));
    } else {
        assert(s.subrange(0, k) =~= s);
    }
}

/// The text after an optional leading `+` or `-`, and whether it was `-`.
pub open spec fn signed_body(s: Seq<char>) -> (bool, Seq<char>) {
    if s.len() > 0 && s[0] == '-' {
        (true, s.drop_first())
    } else if s.len() > 0 && s[0] == '+' {
        (false, s.drop_first())
    } else {
        (false, s)
    }
}

/// What `str::parse::<i32>` accepts: an optional sign, then one or more
/// decimal digits whose signed value fits in 32 bits.
pub open spec fn parse_i32(s: Seq<char>) -> Option<i32> {
    let (neg, body) = signed_body(s);
    let v = digits_value(body);
    if body.len() > 0 && all_digits(body) && v <= (if neg {
        0x8000_0000int
    } else {
        0x7fff_ffffint
    }) {
        Some((if neg {
            -v
        } else {
            v
        }) as i32)
    } else {
        None
    }
}

/// Value of the digits of `s` from `start` on, if they are one or more
/// decimal digits whose value is at most `limit`.
fn parse_digits(s: &str, start: usize, limit: u64) -> (r: Option<u64>)
    requires
        start <= s@.len(),
        limit <= 0x1_0000_0000,
    ensures
        ({
            let body = s@.subrange(start as int, s@.len() as int);
            r == (if body.len() > 0 && all_digits(body) && digits_value(body) <= limit {
                Some(digits_value(body) as u64)
            } else {
                None::<u64>
            })
        }),
        r matches Some(v) ==> v <= limit && v as int == digits_value(
            s@.subrange(start as int, s@.len() as int),
        ),
{
    let n = s.unicode_len();
    let ghost body = s@.subrange(start as int, n as int);
    if start >= n {
        return None;
    }
    let mut v: u64 = 0;
    let mut i: usize = start;
    while i < n
        invariant
            n == s@.len(),
            start <= i <= n,
            body == s@.subrange(start as int, n as int),
            limit <= 0x1_0000_0000,
            v as int == digits_value(s@.subrange(start as int, i as int)),
            v <= limit,
            forall|j: int| start <= j < i ==> is_digit(#[trigger] s@[j]),
        decreases n - i,
    {
        let c = s.get_char(i);
        if !('0' <= c && c <= '9') {
            proof {
                assert(body[i - start] == c);
                assert(!is_digit(body[i - start]));
            }
            return None;
        }
        let d = (c as u32 - '0' as u32) as u64;
        let ghost prev = s@.subrange(start as int, i as int);
        let ghost next = s@.subrange(start as int, i + 1);
        assert(next.drop_last() =~= prev);
        assert(next.last() == c);
        assert(digits_value(next) == digits_value(prev) * 10 + (c as u32 - '0' as u32));
        v = v * 10 + d;
        i = i + 1;
        if v > limit {
            proof {
                if all_digits(body) {
                    lemma_digits_value_grows(body, i - start);
                    assert(body.subrange(0, i - start) =~= s@.subrange(start as int, i as int));
                }
            }
            return None;
        }
    }
    assert(s@.subrange(start as int, n as int) =~= body);
    assert forall|j: int| 0 <= j < body.len() implies is_digit(#[trigger] body[j]) by {
        assert(body[j] == s@[start + j]);
    }
    Some(v)
}

/// Parses a decimal `u32` the way `str::parse` does.
pub fn parse_u32_text(s: &str) -> (r: Option<u32>)
    ensures
        r == parse_u32(s@),
{
    let n = s.unicode_len();
    let start: usize = if n > 0 && s.get_char(0) == '+' {
        1
    } else {
        0
    };
    assert(unsigned_body(s@) =~= s@.subrange(start as int, n as int));
    match parse_digits(s, start, 0xffff_ffff) {
        Some(v) => Some(v as u32),
        None => None,
    }
}

/// Parses a decimal `i32` the way `str::parse` does.
pub fn parse_i32_text(s: &str) -> (r: Option<i32>)
    ensures
        r == parse_i32(s@),
{
    let n = s.unicode_len();
    let neg = n > 0 && s.get_char(0) == '-';
    let start: usize = if n > 0 && (s.get_char(0) == '-' || s.get_char(0) == '+') {
        1
    } else {
        0
    };
    assert(signed_body(s@).1 =~= s@.subrange(start as int, n as int));
    assert(signed_body(s@).0 == neg);
    let limit: u64 = if neg {
        0x8000_0000
    } else {
        0x7fff_ffff
    };
    match parse_digits(s, start, limit) {
        Some(v) => {
            if neg {
                Some((0 - v as i64) as i32)
            } else {
                Some(v as i32)
            }
        },
        None => None,
    }
}

impl Flag {
    /// The arguments as given.
    pub closed spec fn args_view(&self) -> Seq<Seq<char>> {
        string_views(self.args@)
    }

    /// The (flag, value) pairs read from the arguments, in order.
    pub closed spec fn values_view(&self) -> Seq<(Seq<char>, Seq<char>)> {
        pair_views(self.values@)
    }

    /// The described flags: (key, description, kind), one entry per key, in
    /// the order they were first described.
    pub closed spec fn descs_view(&self) -> Seq<(Seq<char>, Seq<char>, Type)> {
        self.descriptions@.map_values(|d: (String, String, Type)| (d.0@, d.1@, d.2))
    }

    /// Number of described flags.
    pub fn descriptions_len(&self) -> (r: usize)
        ensures
            r == self.descs_view().len(),
    {
        self.descriptions.len()
    }

    /// The `i`-th described flag.
    pub fn description(&self, i: usize) -> (r: (&str, &str, Type))
        requires
            i < self.descs_view().len(),
        ensures
            (r.0@, r.1@, r.2) == self.descs_view()[i as int],
    {
        let d = &self.descriptions[i];
        (d.0.as_str(), d.1.as_str(), d.2)
    }

    /// The text set to stand before the help message.
    pub closed spec fn prefix_view(&self) -> Option<Seq<char>> {
        match self.help_message_prefix {
            Some(p) => Some(p@),
            None => None,
        }
    }

    /// Reads the arguments: `-k=v` gives `-k` the value `v`, `-k v` gives it
    /// `v`; a later value for the same flag replaces an earlier one.
    pub fn new(args: Vec<String>) -> (r: Flag)
        ensures
            r.args_view() == string_views(args@),
            r.values_view() == parse_args(string_views(args@)).0,
            r.prefix_view() is None,
            r.descs_view().len() == 0,
    {
        let mut values: Vec<(String, String)> = Vec::new();
        let mut pending: Option<String> = None;
        let ghost views = string_views(args@);
        let mut i: usize = 0;
        while i < args.len()
            invariant
                i <= args.len(),
                views == string_views(args@),
                pair_views(values@) == parse_args(views.subrange(0, i as int)).0,
                match pending {
                    Some(p) => parse_args(views.subrange(0, i as int)).1 == Some(p@),
                    None => parse_args(views.subrange(0, i as int)).1 is None,
                },
            decreases args.len() - i,
        {
            let a = args[i].as_str();
            proof {
                assert(views.subrange(0, i + 1).drop_last() =~= views.subrange(0, i as int));
                assert(views.subrange(0, i + 1).last() == a@);
            }
            let n = a.unicode_len();
            let flag = n > 0 && a.get_char(0) == '-';
            let mut k: usize = 0;
            while k < n && a.get_char(k) != '='
                invariant
                    n == a@.len(),
                    k <= n,
                    forall|j: int| 0 <= j < k ==> a@[j] != '=',
                decreases n - k,
            {
                k = k + 1;
            }
            proof {
                lemma_first_eq(a@, k as int);
            }
            if flag && k < n {
                let key = String::from_str(a.substring_char(0, k));
                let val = String::from_str(a.substring_char(k + 1, n));
                values.push((key, val));
                assert(pair_views(values@) =~= parse_args(views.subrange(0, i + 1)).0);
            } else if flag {
                pending = Some(String::from_str(a));
            } else {
                match pending {
                    Some(f) => {
                        values.push((f, String::from_str(a)));
                        assert(pair_views(values@) =~= parse_args(views.subrange(0, i + 1)).0);
                    },
                    None => {},
                }
                pending = None;
            }
            i = i + 1;
        }
        assert(views.subrange(0, args.len() as int) =~= views);
        let r = Flag { descriptions: Vec::new(), values, args, help_message_prefix: None };
        assert(r.descs_view() =~= Seq::empty());
        r
    }

    fn find_value(&self, key: &str) -> (r: Option<usize>)
        ensures
            match r {
                Some(j) => j < self.values@.len() && lookup(self.values_view(), key@) == Some(
                    self.values@[j as int].1@,
                ),
                None => lookup(self.values_view(), key@) is None,
            },
    {
        let mut k: usize = self.values.len();
        assert(self.values@.subrange(0, k as int) =~= self.values@);
        while k > 0
            invariant
                k <= self.values@.len(),
                lookup(self.values_view(), key@) == lookup(
                    pair_views(self.values@.subrange(0, k as int)),
                    key@,
                ),
            decreases k,
        {
            let ghost sub = self.values@.subrange(0, k as int);
            assert(pair_views(sub).drop_last() =~= pair_views(self.values@.subrange(0, k - 1)));
            if str_eq(self.values[k - 1].0.as_str(), key) {
                return Some(k - 1);
            }
            k = k - 1;
        }
        None
    }

    fn add_desc(&mut self, key: &str, desc: &str, kind: Type)
        ensures
            final(self).args_view() == old(self).args_view(),
            final(self).values_view() == old(self).values_view(),
            final(self).prefix_view() == old(self).prefix_view(),
            final(self).descs_view() == with_desc(old(self).descs_view(), (key@, desc@, kind)),
    {
        let entry = (String::from_str(key), String::from_str(desc), kind);
        let mut k: usize = self.descriptions.len();
        let ghost all = self.descs_view();
        assert(all.subrange(0, k as int) =~= all);
        while k > 0
            invariant
                k <= self.descriptions@.len(),
                *self == *old(self),
                all == self.descs_view(),
                entry.0@ == key@,
                entry.1@ == desc@,
                entry.2 == kind,
                with_desc(all, (key@, desc@, kind)) == with_desc_at(
                    all,
                    all.subrange(0, k as int),
                    (key@, desc@, kind),
                ),
            decreases k,
        {
            assert(all.subrange(0, k as int).drop_last() =~= all.subrange(0, k - 1));
            if str_eq(self.descriptions[k - 1].0.as_str(), key) {
                self.descriptions.set(k - 1, entry);
                assert(self.descs_view() =~= all.update(k - 1, (key@, desc@, kind)));
                return;
            }
            k = k - 1;
        }
        self.descriptions.push(entry);
        assert(self.descs_view() =~= all.push((key@, desc@, kind)));
    }

    /// Sets the text that stands before the help message.
    pub fn set_help_message_prefix(&mut self, msg: &str)
        ensures
            final(self).prefix_view() == Some(msg@),
            final(self).args_view() == old(self).args_view(),
            final(self).values_view() == old(self).values_view(),
            final(self).descs_view() == old(self).descs_view(),
    {
        self.help_message_prefix = Some(String::from_str(msg));
    }

    /// Whether `key` is one of the arguments.
    pub fn get_bool(&mut self, key: &str) -> (r: bool)
        ensures
            r == old(self).args_view().contains(key@),
            *final(self) == *old(self),
    {
        let mut i: usize = 0;
        while i < self.args.len()
            invariant
                i <= self.args@.len(),
                forall|j: int| 0 <= j < i ==> self.args@[j]@ != key@,
            decreases self.args.len() - i,
        {
            if str_eq(self.args[i].as_str(), key) {
                proof {
                    assert(self.args_view()[i as int] == key@);
                }
                return true;
            }
            i = i + 1;
        }
        proof {
            if self.args_view().contains(key@) {
                let j = choose|j: int| 0 <= j < self.args_view().len() && self.args_view()[j]
                    == key@;
                assert(self.args@[j]@ == key@);
            }
        }
        false
    }

    /// The value last given to `key`.
    pub fn get_str(&mut self, key: &str) -> (r: Option<String>)
        ensures
            *final(self) == *old(self),
            match r {
                Some(s) => lookup(old(self).values_view(), key@) == Some(s@),
                None => lookup(old(self).values_view(), key@) is None,
            },
    {
        match self.find_value(key) {
            Some(j) => Some(self.values[j].1.clone()),
            None => None,
        }
    }

    /// The value last given to `key`, or `fallback`; records the flag's
    /// description.
    pub fn fget_str(&mut self, key: &str, fallback: &str, desc: &str) -> (r: String)
        ensures
            final(self).values_view() == old(self).values_view(),
            final(self).args_view() == old(self).args_view(),
            final(self).descs_view() == with_desc(old(self).descs_view(), (key@, desc@, Type::String)),
            r@ == match lookup(old(self).values_view(), key@) {
                Some(v) => v,
                None => fallback@,
            },
    {
        self.add_desc(key, desc, Type::String);
        match self.find_value(key) {
            Some(j) => self.values[j].1.clone(),
            None => String::from_str(fallback),
        }
    }

    /// The value last given to `key`, read as an `i32`.
    pub fn get_i32(&mut self, key: &str) -> (r: Option<i32>)
        ensures
            *final(self) == *old(self),
            r == match lookup(old(self).values_view(), key@) {
                Some(v) => parse_i32(v),
                None => None,
            },
    {
        match self.find_value(key) {
            Some(j) => parse_i32_text(self.values[j].1.as_str()),
            None => None,
        }
    }

    /// The value last given to `key` read as an `i32`, or `fallback` when it
    /// is missing or unreadable.
    pub fn fget_i32(&mut self, key: &str, fallback: i32, desc: &str) -> (r: i32)
        ensures
            *final(self) == *old(self),
            r == match lookup(old(self).values_view(), key@) {
                Some(v) => match parse_i32(v) {
                    Some(x) => x,
                    None => fallback,
                },
                None => fallback,
            },
    {
        match self.find_value(key) {
            Some(j) => match parse_i32_text(self.values[j].1.as_str()) {
                Some(x) => x,
                None => fallback,
            },
            None => fallback,
        }
    }

    /// The value last given to `key`, read as a `u32`.
    pub fn get_u32(&mut self, key: &str) -> (r: Option<u32>)
        ensures
            *final(self) == *old(self),
            r == match lookup(old(self).values_view(), key@) {
                Some(v) => parse_u32(v),
                None => None,
            },
    {
        match self.find_value(key) {
            Some(j) => parse_u32_text(self.values[j].1.as_str()),
            None => None,
        }
    }

    /// The value last given to `key` read as a `u32`, or `fallback` when it
    /// is missing or unreadable; records the flag's description.
    pub fn fget_u32(&mut self, key: &str, fallback: u32, desc: &str) -> (r: u32)
        ensures
            final(self).values_view() == old(self).values_view(),
            final(self).args_view() == old(self).args_view(),
            final(self).descs_view() == with_desc(
                old(self).descs_view(),
                (key@, desc@, Type::Unsigned),
            ),
            r == match lookup(old(self).values_view(), key@) {
                Some(v) => match parse_u32(v) {
                    Some(x) => x,
                    None => fallback,
                },
                None => fallback,
            },
    {
        self.add_desc(key, desc, Type::Unsigned);
        match self.find_value(key) {
            Some(j) => match parse_u32_text(self.values[j].1.as_str()) {
                Some(x) => x,
                None => fallback,
            },
            None => fallback,
        }
    }
}

/// The descriptions after describing `e`: it replaces the entry with the
/// same key, or comes last.
pub open spec fn with_desc(
    descs: Seq<(Seq<char>, Seq<char>, Type)>,
    e: (Seq<char>, Seq<char>, Type),
) -> Seq<(Seq<char>, Seq<char>, Type)> {
    with_desc_at(descs, descs, e)
}

/// `with_desc`, searching `part`, a prefix of `descs`, from its end.
pub open spec fn with_desc_at(
    descs: Seq<(Seq<char>, Seq<char>, Type)>,
    part: Seq<(Seq<char>, Seq<char>, Type)>,
    e: (Seq<char>, Seq<char>, Type),
) -> Seq<(Seq<char>, Seq<char>, Type)>
    decreases part.len(),
{
    if part.len() == 0 {
        descs.push(e)
    } else if part.last().0 == e.0 {
        descs.update(part.len() - 1, e)
    } else {
        with_desc_at(descs, part.drop_last(), e)
    }
}

proof fn lemma_first_eq(a: Seq<char>, k: int)
    requires
        0 <= k <= a.len(),
        forall|j: int| 0 <= j < k ==> a[j] != '=',
        k < a.len() ==> a[k] == '=',
    ensures
        k < a.len() ==> first_eq(a) == Some(k),
        k == a.len() ==> first_eq(a) is None,
    decreases a.len(),
{
    if a.len() > 0 {
        let u = a.drop_last();
        if k < a.len() - 1 {
            lemma_first_eq(u, k);
        } else {
            lemma_first_eq(u, u.len() as int);
        }
    }
}

} // verus!
