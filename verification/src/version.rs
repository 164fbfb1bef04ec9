use vstd::prelude::*;

use crate::text::{decimal, digit_char};

verus! {

/// Whether `c` is an ASCII decimal digit.
pub open spec fn is_digit(c: char) -> bool {
    48 <= (c as u32) <= 57
}

/// The value of the decimal digits `d`.
pub open spec fn digits_value(d: Seq<char>) -> nat
    decreases d.len(),
{
    if d.len() == 0 {
        0
    } else {
        digits_value(d.drop_last()) * 10 + ((d.last() as u32) - 48) as nat
    }
}

/// Whether every character of `d` is an ASCII decimal digit.
pub open spec fn all_digits(d: Seq<char>) -> bool {
    forall|i: int| 0 <= i < d.len() ==> is_digit(#[trigger] d[i])
}

/// `s` without one leading `+`, if it has one.
pub open spec fn without_plus(s: Seq<char>) -> Seq<char> {
    if s.len() > 0 && s[0] == '+' {
        s.drop_first()
    } else {
        s
    }
}

/// What `str::parse::<u32>` gives for `s`: an optional `+`, then one or more
/// ASCII digits whose value fits in a `u32`; anything else is no number.
pub open spec fn parse_u32(s: Seq<char>) -> Option<u32> {
    let d = without_plus(s);
    if d.len() > 0 && all_digits(d) && digits_value(d) <= u32::MAX {
        Some(digits_value(d) as u32)
    } else {
        None
    }
}

/// `s` split at every `.`, as `str::split('.')` splits it.
pub open spec fn split_dots(s: Seq<char>) -> Seq<Seq<char>>
    decreases s.len(),
{
    if s.len() == 0 {
        seq![Seq::<char>::empty()]
    } else {
        let p = split_dots(s.drop_last());
        if s.last() == '.' {
            p.push(Seq::<char>::empty())
        } else {
            p.update(p.len() - 1, p.last().push(s.last()))
        }
    }
}

/// The numbers among `pieces`, in order; pieces that are no number are skipped.
pub open spec fn parsed_numbers(pieces: Seq<Seq<char>>) -> Seq<u32>
    decreases pieces.len(),
{
    if pieces.len() == 0 {
        Seq::empty()
    } else {
        let rest = parsed_numbers(pieces.drop_last());
        match parse_u32(pieces.last()) {
            Some(v) => rest.push(v),
            None => rest,
        }
    }
}

/// The components of a dotted version string that are numbers.
pub open spec fn version_numbers(s: Seq<char>) -> Seq<u32> {
    parsed_numbers(split_dots(s))
}

/// Lexicographic `a <= b` on number sequences, as `Vec<u32>` orders them.
pub open spec fn lex_le(a: Seq<u32>, b: Seq<u32>) -> bool
    decreases a.len(),
{
    if a.len() == 0 {
        true
    } else if b.len() == 0 {
        false
    } else if a[0] != b[0] {
        a[0] < b[0]
    } else {
        lex_le(a.drop_first(), b.drop_first())
    }
}

/// Whether version `current` is at least version `required`.
pub open spec fn version_at_least(current: Seq<char>, required: Seq<char>) -> bool {
    lex_le(version_numbers(required), version_numbers(current))
}

proof fn lemma_split_nonempty(s: Seq<char>)
    ensures
        split_dots(s).len() >= 1,
    decreases s.len(),
{
    if s.len() > 0 {
        lemma_split_nonempty(s.drop_last());
    }
}

proof fn lemma_digits_value_grows(d: Seq<char>, k: int)
    requires
        0 <= k <= d.len(),
    ensures
        digits_value(d.subrange(0, k)) <= digits_value(d),
    decreases d.len() - k,
{
    if k < d.len() {
        lemma_digits_value_grows(d, k + 1);
        assert(d.subrange(0, k + 1).drop_last() =~= d.subrange(0, k));
    } else {
        assert(d.subrange(0, k) =~= d);
    }
}

/// The number that the characters `start..end` of `s` spell, as `parse::<u32>` reads it.
fn parse_component(s: &str, start: usize, end: usize) -> (r: Option<u32>)
    requires
        start <= end <= s@.len(),
    ensures
        r == parse_u32(s@.subrange(start as int, end as int)),
{
    let ghost piece = s@.subrange(start as int, end as int);
    let mut i = start;
    if i < end && s.get_char(i) == '+' {
        i = i + 1;
    }
    let ghost d = without_plus(piece);
    assert(d =~= s@.subrange(i as int, end as int));
    if i == end {
        return None;
    }
    let first = i;
    let mut value: u64 = 0;
    while i < end
        invariant
            first <= i <= end <= s@.len(),
            first < end,
            d == s@.subrange(first as int, end as int),
            piece == s@.subrange(start as int, end as int),
            d == without_plus(piece),
            value == digits_value(d.subrange(0, i - first)),
            value <= u32::MAX,
            forall|j: int| 0 <= j < i - first ==> is_digit(#[trigger] d[j]),
        decreases end - i,
    {
        let c = s.get_char(i);
        let code = c as u32;
        assert(d[i - first] == c);
        if code < 48 || code > 57 {
            assert(!is_digit(d[i - first]));
            assert(!all_digits(d));
            return None;
        }
        proof {
            assert(d.subrange(0, i - first + 1).drop_last() =~= d.subrange(0, i - first));
            assert(d.subrange(0, i - first + 1).last() == d[i - first]);
        }
        value = value * 10 + (code - 48) as u64;
        i = i + 1;
        assert(value == digits_value(d.subrange(0, i - first)));
        assert(forall|j: int| 0 <= j < i - first ==> is_digit(#[trigger] d[j]));
        if value > 0xffff_ffff {
            proof {
                lemma_digits_value_grows(d, i - first);
            }
            return None;
        }
    }
    assert(d.subrange(0, i - first) =~= d);
    Some(value as u32)
}

/// The numeric components of the dotted version `s`.
fn version_components(s: &str) -> (r: Vec<u32>)
    ensures
        r@ == version_numbers(s@),
{
    let n = s.unicode_len();
    let mut out: Vec<u32> = Vec::new();
    let mut start: usize = 0;
    let mut i: usize = 0;
    proof {
        assert(s@.subrange(0, 0) =~= Seq::<char>::empty());
    }
    while i < n
        invariant
            n == s@.len(),
            start <= i <= n,
            split_dots(s@.subrange(0, i as int)).len() >= 1,
            split_dots(s@.subrange(0, i as int)).last() == s@.subrange(start as int, i as int),
            out@ == parsed_numbers(split_dots(s@.subrange(0, i as int)).drop_last()),
        decreases n - i,
    {
        let ghost p = split_dots(s@.subrange(0, i as int));
        let c = s.get_char(i);
        proof {
            assert(s@.subrange(0, i + 1).drop_last() =~= s@.subrange(0, i as int));
            assert(s@.subrange(0, i + 1).last() == c);
        }
        if c == '.' {
            let v = parse_component(s, start, i);
            proof {
                assert(p.push(Seq::<char>::empty()).drop_last() =~= p);
                assert(p.drop_last().push(p.last()) =~= p);
            }
            match v {
                Some(x) => out.push(x),
                None => {},
            }
            start = i + 1;
            proof {
                assert(s@.subrange(start as int, i + 1) =~= Seq::<char>::empty());
            }
        } else {
            proof {
                let q = p.update(p.len() - 1, p.last().push(c));
                assert(q.drop_last() =~= p.drop_last());
                assert(s@.subrange(start as int, i + 1) =~= s@.subrange(start as int, i as int).push(
                    c,
                ));
            }
        }
        i = i + 1;
    }
    let ghost p = split_dots(s@.subrange(0, n as int));
    assert(s@.subrange(0, n as int) =~= s@);
    let v = parse_component(s, start, n);
    proof {
        assert(p.drop_last().push(p.last()) =~= p);
    }
    match v {
        Some(x) => out.push(x),
        None => {},
    }
    out
}

proof fn lemma_lex_step(a: Seq<u32>, b: Seq<u32>, i: int)
    requires
        0 <= i < a.len(),
        i < b.len(),
        a[i] == b[i],
    ensures
        lex_le(a.skip(i), b.skip(i)) == lex_le(a.skip(i + 1), b.skip(i + 1)),
{
    assert(a.skip(i).drop_first() =~= a.skip(i + 1));
    assert(b.skip(i).drop_first() =~= b.skip(i + 1));
}

/// Lexicographic `a <= b`.
fn lex_le_exec(a: &Vec<u32>, b: &Vec<u32>) -> (r: bool)
    ensures
        r == lex_le(a@, b@),
{
    let mut i: usize = 0;
    assert(a@.skip(0) =~= a@);
    assert(b@.skip(0) =~= b@);
    while i < a.len() && i < b.len()
        invariant
            i <= a@.len(),
            i <= b@.len(),
            lex_le(a@, b@) == lex_le(a@.skip(i as int), b@.skip(i as int)),
        decreases a@.len() - i,
    {
        if a[i] != b[i] {
            return a[i] < b[i];
        }
        proof {
            lemma_lex_step(a@, b@, i as int);
        }
        i = i + 1;
    }
    i == a.len()
}

/// Whether version `current` is at least `required`: both are read as the
/// sequence of their numeric dot-separated components (other components are
/// skipped) and compared lexicographically.
pub fn compare_versions(current: &str, required: &str) -> (r: bool)
    ensures
        r == version_at_least(current@, required@),
{
    let cur = version_components(current);
    let req = version_components(required);
    lex_le_exec(&req, &cur)
}

/// Every version is at least itself.
pub proof fn lemma_version_reflexive(v: Seq<char>)
    ensures
        version_at_least(v, v),
{
    lemma_lex_reflexive(version_numbers(v));
}

/// "At least" between versions is transitive.
pub proof fn lemma_version_transitive(a: Seq<char>, b: Seq<char>, c: Seq<char>)
    requires
        version_at_least(a, b),
        version_at_least(b, c),
    ensures
        version_at_least(a, c),
{
    lemma_lex_transitive(version_numbers(c), version_numbers(b), version_numbers(a));
}

/// Any two versions are comparable: one is at least the other.
pub proof fn lemma_version_total(a: Seq<char>, b: Seq<char>)
    ensures
        version_at_least(a, b) || version_at_least(b, a),
{
    lemma_lex_total(version_numbers(a), version_numbers(b));
}

proof fn lemma_lex_reflexive(a: Seq<u32>)
    ensures
        lex_le(a, a),
    decreases a.len(),
{
    if a.len() > 0 {
        lemma_lex_reflexive(a.drop_first());
    }
}

proof fn lemma_lex_transitive(a: Seq<u32>, b: Seq<u32>, c: Seq<u32>)
    requires
        lex_le(a, b),
        lex_le(b, c),
    ensures
        lex_le(a, c),
    decreases a.len(),
{
    if a.len() > 0 && b.len() > 0 && c.len() > 0 {
        if a[0] == b[0] && b[0] == c[0] {
            lemma_lex_transitive(a.drop_first(), b.drop_first(), c.drop_first());
        }
    }
}

proof fn lemma_lex_total(a: Seq<u32>, b: Seq<u32>)
    ensures
        lex_le(a, b) || lex_le(b, a),
    decreases a.len(),
{
    if a.len() > 0 && b.len() > 0 && a[0] == b[0] {
        lemma_lex_total(a.drop_first(), b.drop_first());
    }
}


/// Number sequences are compared as `Vec<u32>` compares them: a prefix is
/// at most any extension, and otherwise the first differing number decides.
pub proof fn lemma_lex_le_meaning(a: Seq<u32>, b: Seq<u32>)
    ensures
        a.len() <= b.len() && b.subrange(0, a.len() as int) == a ==> lex_le(a, b),
        b.len() < a.len() && a.subrange(0, b.len() as int) == b ==> !lex_le(a, b),
        forall|i: int|
            0 <= i < a.len() && i < b.len() && a[i] != b[i] && a.subrange(0, i) == b.subrange(0, i)
                ==> (lex_le(a, b) <==> #[trigger] a[i] < b[i]),
    decreases a.len(),
{
    if a.len() > 0 && b.len() > 0 {
        lemma_lex_le_meaning(a.drop_first(), b.drop_first());
        if a.len() <= b.len() && b.subrange(0, a.len() as int) == a {
            assert(b[0] == a[0]);
            assert(b.drop_first().subrange(0, a.drop_first().len() as int) =~= a.drop_first());
        }
        if b.len() < a.len() && a.subrange(0, b.len() as int) == b {
            assert(a[0] == b[0]);
            assert(a.drop_first().subrange(0, b.drop_first().len() as int) =~= b.drop_first());
        }
        assert forall|i: int|
            0 <= i < a.len() && i < b.len() && a[i] != b[i] && a.subrange(0, i) == b.subrange(0, i)
                implies (lex_le(a, b) <==> #[trigger] a[i] < b[i]) by {
            if i > 0 {
                assert(a[0] == a.subrange(0, i)[0]);
                assert(b[0] == b.subrange(0, i)[0]);
                assert(a.drop_first()[i - 1] == a[i]);
                assert(b.drop_first()[i - 1] == b[i]);
                assert(a.drop_first().subrange(0, i - 1) =~= a.subrange(0, i).drop_first());
                assert(b.drop_first().subrange(0, i - 1) =~= b.subrange(0, i).drop_first());
            }
        }
    }
}

/// The dotted version string of the numbers `ns`, such as `1.5.97`.
pub open spec fn dotted(ns: Seq<u32>) -> Seq<char>
    decreases ns.len(),
{
    if ns.len() == 0 {
        Seq::empty()
    } else if ns.len() == 1 {
        decimal(ns[0] as nat)
    } else {
        dotted(ns.drop_last()) + seq!['.'] + decimal(ns.last() as nat)
    }
}

proof fn lemma_digit_char_value(d: nat)
    requires
        d < 10,
    ensures
        digit_char(d) as u32 == 48 + d,
        is_digit(digit_char(d)),
        digit_char(d) != '.',
        digit_char(d) != '+',
{
}

proof fn lemma_decimal_digits(n: nat)
    ensures
        decimal(n).len() > 0,
        all_digits(decimal(n)),
        digits_value(decimal(n)) == n,
        !decimal(n).contains('.'),
        decimal(n)[0] != '+',
    decreases n,
{
    lemma_digit_char_value(n % 10);
    if n >= 10 {
        lemma_decimal_digits(n / 10);
        assert(n == (n / 10) * 10 + n % 10);
        let d = decimal(n);
        let p = decimal(n / 10);
        assert(d.drop_last() =~= p);
        assert(d.last() == digit_char(n % 10));
        assert forall|i: int| 0 <= i < d.len() implies is_digit(#[trigger] d[i]) by {
            if i < p.len() {
                assert(d[i] == p[i]);
            }
        }
        if d.contains('.') {
            let i = choose|i: int| 0 <= i < d.len() && d[i] == '.';
            if i < p.len() {
                assert(p[i] == '.');
            }
        }
        assert(d[0] == p[0]);
        assert(digits_value(d) == digits_value(p) * 10 + ((d.last() as u32) - 48) as nat);
        assert(digits_value(d) == n);
    } else {
        lemma_digit_char_value(n);
        let d = decimal(n);
        assert(d == seq![digit_char(n)]);
        assert(d.drop_last() =~= Seq::<char>::empty());
        assert(d.last() == digit_char(n));
        assert(digits_value(d.drop_last()) == 0);
        assert(digits_value(d) == n);
        if d.contains('.') {
            let i = choose|i: int| 0 <= i < d.len() && d[i] == '.';
            assert(i == 0);
        }
    }
}

proof fn lemma_split_no_dots(x: Seq<char>)
    requires
        !x.contains('.'),
    ensures
        split_dots(x) == seq![x],
    decreases x.len(),
{
    if x.len() == 0 {
        assert(x =~= Seq::<char>::empty());
        assert(seq![x] =~= seq![Seq::<char>::empty()]);
    } else {
        assert(!x.drop_last().contains('.')) by {
            if x.drop_last().contains('.') {
                let i = choose|i: int| 0 <= i < x.drop_last().len() && x.drop_last()[i] == '.';
                assert(x[i] == '.');
            }
        }
        lemma_split_no_dots(x.drop_last());
        assert(x.last() != '.') by {
            assert(x[x.len() - 1] == x.last());
        }
        assert(x.drop_last().push(x.last()) =~= x);
        let p = split_dots(x.drop_last());
        assert(p.update(p.len() - 1, p.last().push(x.last())) =~= seq![x]);
    }
}

proof fn lemma_split_concat(x: Seq<char>, y: Seq<char>)
    ensures
        split_dots(x + seq!['.'] + y) == split_dots(x) + split_dots(y),
    decreases y.len(),
{
    if y.len() == 0 {
        assert(x + seq!['.'] + y =~= x.push('.'));
        assert(x.push('.').drop_last() =~= x);
    } else {
        let y0 = y.drop_last();
        lemma_split_concat(x, y0);
        lemma_split_nonempty(y0);
        let z = x + seq!['.'] + y;
        assert(z.drop_last() =~= x + seq!['.'] + y0);
        assert(z.last() == y.last());
        let a = split_dots(x);
        let b0 = split_dots(y0);
        if y.last() == '.' {
            assert((a + b0).push(Seq::<char>::empty()) =~= a + b0.push(Seq::<char>::empty()));
        } else {
            let p = a + b0;
            assert(p.update(p.len() - 1, p.last().push(y.last())) =~= a + b0.update(
                b0.len() - 1,
                b0.last().push(y.last()),
            ));
        }
    }
}

proof fn lemma_parsed_concat(a: Seq<Seq<char>>, b: Seq<Seq<char>>)
    ensures
        parsed_numbers(a + b) == parsed_numbers(a) + parsed_numbers(b),
    decreases b.len(),
{
    if b.len() == 0 {
        assert(a + b =~= a);
        assert(parsed_numbers(a) + Seq::<u32>::empty() =~= parsed_numbers(a));
    } else {
        lemma_parsed_concat(a, b.drop_last());
        assert((a + b).drop_last() =~= a + b.drop_last());
        assert((a + b).last() == b.last());
        match parse_u32(b.last()) {
            Some(v) => {
                assert((parsed_numbers(a) + parsed_numbers(b.drop_last())).push(v) =~= parsed_numbers(a)
                    + parsed_numbers(b.drop_last()).push(v));
            },
            None => {},
        }
    }
}

proof fn lemma_parse_decimal(n: u32)
    ensures
        parse_u32(decimal(n as nat)) == Some(n),
{
    lemma_decimal_digits(n as nat);
    assert(without_plus(decimal(n as nat)) == decimal(n as nat));
}

/// Reading the numbers back from a dotted version string gives the numbers
/// it was written from: every component is split off at the dots and parsed
/// as the decimal number it spells.
pub proof fn lemma_version_numbers_of_dotted(ns: Seq<u32>)
    ensures
        version_numbers(dotted(ns)) == ns,
    decreases ns.len(),
{
    if ns.len() == 0 {
        assert(dotted(ns) == Seq::<char>::empty());
        assert(split_dots(Seq::<char>::empty()) == seq![Seq::<char>::empty()]);
        assert(seq![Seq::<char>::empty()].drop_last() =~= Seq::<Seq<char>>::empty());
        assert(parse_u32(Seq::<char>::empty()) is None);
        assert(seq![Seq::<char>::empty()].last() == Seq::<char>::empty());
        assert(parsed_numbers(Seq::<Seq<char>>::empty()) == Seq::<u32>::empty());
        assert(version_numbers(dotted(ns)) =~= ns);
    } else if ns.len() == 1 {
        lemma_decimal_digits(ns[0] as nat);
        lemma_split_no_dots(decimal(ns[0] as nat));
        lemma_parse_decimal(ns[0]);
        assert(seq![decimal(ns[0] as nat)].drop_last() =~= Seq::<Seq<char>>::empty());
        assert(seq![decimal(ns[0] as nat)].last() == decimal(ns[0] as nat));
        assert(parsed_numbers(Seq::<Seq<char>>::empty()) == Seq::<u32>::empty());
        assert(ns =~= seq![ns[0]]);
    } else {
        let pre = ns.drop_last();
        lemma_version_numbers_of_dotted(pre);
        let last = decimal(ns.last() as nat);
        lemma_decimal_digits(ns.last() as nat);
        lemma_split_no_dots(last);
        lemma_split_concat(dotted(pre), last);
        lemma_parsed_concat(split_dots(dotted(pre)), seq![last]);
        lemma_parse_decimal(ns.last());
        assert(seq![last].drop_last() =~= Seq::<Seq<char>>::empty());
        assert(seq![last].last() == last);
        assert(parsed_numbers(Seq::<Seq<char>>::empty()) == Seq::<u32>::empty());
        assert(parsed_numbers(seq![last]) =~= seq![ns.last()]);
        assert(pre.push(ns.last()) =~= ns);
    }
}

/// A game version of the numbers `current` is at least one of the numbers
/// `required` exactly when `current` is at least `required` in `Vec<u32>`
/// order.
pub proof fn lemma_version_at_least_dotted(current: Seq<u32>, required: Seq<u32>)
    ensures
        version_at_least(dotted(current), dotted(required)) == lex_le(required, current),
{
    lemma_version_numbers_of_dotted(current);
    lemma_version_numbers_of_dotted(required);
}

} // verus!
