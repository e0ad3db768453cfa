//! Text helpers shared by the charts and the report: building strings
//! character by character, decimal numbers, search and replace.

use vstd::prelude::*;

verus! {

/// `String::push`: the documentation says it appends the character to the
/// end of the string, which is what the contract claims.
#[verifier::external_body]
pub(crate) fn push_char(s: &mut String, c: char)
    ensures
        final(s)@ == old(s)@.push(c),
{
    s.push(c);
}

/// The characters of `s`, in order.
pub fn chars_of(s: &str) -> (v: Vec<char>)
    ensures
        v@ == s@,
{
    let mut v: Vec<char> = Vec::new();
    for c in it: s.chars()
        invariant
            v@ == it.seq().take(it.index() as int),
    {
        v.push(c);
    }
    v
}


/// The views of `strings`.
pub open spec fn views(strings: Seq<String>) -> Seq<Seq<char>> {
    strings.map_values(|s: String| s@)
}

/// The character of the decimal digit `d`.
pub open spec fn digit_char(d: nat) -> char {
    (d + 48) as char
}

/// `n` in decimal, without leading zeros.
pub open spec fn decimal_digits(n: nat) -> Seq<char>
    decreases n,
{
    if n < 10 {
        seq![digit_char(n)]
    } else {
        decimal_digits(n / 10).push(digit_char(n % 10))
    }
}

/// `n` written in decimal.
pub fn decimal(n: u64) -> (s: String)
    ensures
        s@ == decimal_digits(n as nat),
    decreases n,
{
    let digit = ((n % 10) as u8 + 48u8) as char;
    assert(digit == digit_char((n % 10) as nat));
    if n < 10 {
        let mut s = String::new();
        push_char(&mut s, digit);
        assert(s@ =~= seq![digit_char(n as nat)]);
        s
    } else {
        let mut s = decimal(n / 10);
        push_char(&mut s, digit);
        s
    }
}

/// Whether `pattern` stands in `s` at `at`.
pub open spec fn occurs_at<A>(s: Seq<A>, pattern: Seq<A>, at: int) -> bool {
    &&& 0 <= at
    &&& at + pattern.len() <= s.len()
    &&& s.subrange(at, at + pattern.len()) == pattern
}

/// Whether `pattern` stands anywhere in `s`.
pub open spec fn contains<A>(s: Seq<A>, pattern: Seq<A>) -> bool {
    exists|at: int| occurs_at(s, pattern, at)
}

/// `s` with every occurrence of `from` replaced by `to`, the occurrences
/// taken from the left and never overlapping; an empty `from` stands before
/// every character and at the end.
pub open spec fn replaced(s: Seq<char>, from: Seq<char>, to: Seq<char>) -> Seq<char>
    decreases s.len(),
{
    if from.len() == 0 {
        if s.len() == 0 {
            to
        } else {
            to + seq![s[0]] + replaced(s.drop_first(), from, to)
        }
    } else if s.len() < from.len() {
        s
    } else if s.take(from.len() as int) == from {
        to + replaced(s.skip(from.len() as int), from, to)
    } else {
        seq![s[0]] + replaced(s.drop_first(), from, to)
    }
}

/// Whether `pattern` stands in `s` at `at`.
pub fn matches_at(s: &Vec<char>, pattern: &Vec<char>, at: usize) -> (b: bool)
    requires
        at + pattern@.len() <= s@.len(),
    ensures
        b == occurs_at(s@, pattern@, at as int),
{
    let mut k: usize = 0;
    let n = s.len();
    while k < pattern.len()
        invariant
            n == s@.len(),
            at + pattern@.len() <= s@.len(),
            k <= pattern@.len(),
            forall|j: int| 0 <= j < k ==> s@[at + j] == pattern@[j],
        decreases pattern@.len() - k,
    {
        if s[at + k] != pattern[k] {
            assert(s@.subrange(at as int, at + pattern@.len())[k as int] != pattern@[k as int]);
            return false;
        }
        k = k + 1;
    }
    assert(s@.subrange(at as int, at + pattern@.len()) =~= pattern@);
    true
}

/// Appends the characters of `s` from `from` on to `r`.
pub fn push_rest(r: &mut String, s: &Vec<char>, from: usize)
    requires
        from <= s@.len(),
    ensures
        final(r)@ == old(r)@ + s@.skip(from as int),
{
    let mut i = from;
    while i < s.len()
        invariant
            from <= i <= s@.len(),
            r@ == old(r)@ + s@.subrange(from as int, i as int),
        decreases s@.len() - i,
    {
        push_char(r, s[i]);
        i = i + 1;
        assert(s@.subrange(from as int, i as int) =~= s@.subrange(from as int, i - 1).push(s@[i - 1]));
    }
    assert(s@.subrange(from as int, i as int) =~= s@.skip(from as int));
}

/// `text` with every occurrence of `from` replaced by `to`, as `str::replace` does it.
pub fn replace(text: &str, from: &str, to: &str) -> (r: String)
    ensures
        r@ == replaced(text@, from@, to@),
{
    let t = chars_of(text);
    let f = chars_of(from);
    let mut r = String::new();
    let mut i: usize = 0;
    assert(t@.skip(0) =~= t@);
    assert(r@ + t@ =~= t@);
    if f.len() == 0 {
        while i < t.len()
            invariant
                i <= t@.len(),
                f@.len() == 0,
                replaced(t@, f@, to@) == r@ + replaced(t@.skip(i as int), f@, to@),
            decreases t@.len() - i,
        {
            r.append(to);
            push_char(&mut r, t[i]);
            assert(t@.skip(i as int).drop_first() =~= t@.skip(i + 1));
            i = i + 1;
        }
        r.append(to);
        return r;
    }
    while i < t.len() && t.len() - i >= f.len()
        invariant
            i <= t@.len(),
            f@.len() > 0,
            replaced(t@, f@, to@) == r@ + replaced(t@.skip(i as int), f@, to@),
        decreases t@.len() - i,
    {
        let ghost rest = t@.skip(i as int);
        assert(rest.take(f@.len() as int) =~= t@.subrange(i as int, i + f@.len()));
        if matches_at(&t, &f, i) {
            r.append(to);
            assert(rest.skip(f@.len() as int) =~= t@.skip(i + f@.len()));
            i = i + f.len();
        } else {
            push_char(&mut r, t[i]);
            assert(rest.drop_first() =~= t@.skip(i + 1));
            i = i + 1;
        }
    }
    push_rest(&mut r, &t, i);
    r
}


/// Whether `a` and `b` hold the same characters.
pub fn same_text(a: &str, b: &str) -> (r: bool)
    ensures
        r == (a@ == b@),
{
    let x = chars_of(a);
    let y = chars_of(b);
    if x.len() != y.len() {
        return false;
    }
    let mut i: usize = 0;
    while i < x.len()
        invariant
            x@ == a@,
            y@ == b@,
            x@.len() == y@.len(),
            i <= x@.len(),
            forall|j: int| 0 <= j < i ==> x@[j] == y@[j],
        decreases x@.len() - i,
    {
        if x[i] != y[i] {
            assert(x@[i as int] != y@[i as int]);
            return false;
        }
        i = i + 1;
    }
    assert(x@ =~= y@);
    true
}

} // verus!
