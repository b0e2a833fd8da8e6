//! Character-level text helpers shared by the routing and archive modules.
use vstd::prelude::*;

verus! {

/// Appends one character to a string with `String::push`, trusted to add
/// exactly that character at the end.
#[verifier::external_body]
pub(crate) fn push_char(s: &mut String, c: char)
    ensures
        final(s)@ == old(s)@.push(c),
{
    s.push(c);
}

/// `s` with every occurrence of `c` taken out.
pub open spec fn without_char(s: Seq<char>, c: char) -> Seq<char>
    decreases s.len(),
{
    if s.len() == 0 {
        s
    } else if s.last() == c {
        without_char(s.drop_last(), c)
    } else {
        without_char(s.drop_last(), c).push(s.last())
    }
}

/// Removes every occurrence of `c` from `s`.
pub fn remove_char(s: &str, c: char) -> (r: String)
    ensures
        r@ == without_char(s@, c),
{
    let n = s.unicode_len();
    let mut out = String::new();
    let mut i: usize = 0;
    while i < n
        invariant
            n == s@.len(),
            i <= n,
            out@ == without_char(s@.subrange(0, i as int), c),
        decreases n - i,
    {
        let ch = s.get_char(i);
        assert(s@.subrange(0, i + 1).drop_last() =~= s@.subrange(0, i as int));
        if ch != c {
            push_char(&mut out, ch);
        }
        i = i + 1;
    }
    assert(s@.subrange(0, n as int) =~= s@);
    out
}

/// Taking a character out of a concatenation takes it out of each part.
pub proof fn lemma_without_char_concat(a: Seq<char>, b: Seq<char>, c: char)
    ensures
        without_char(a + b, c) == without_char(a, c) + without_char(b, c),
    decreases b.len(),
{
    if b.len() == 0 {
        assert(a + b =~= a);
        assert(without_char(a, c) + without_char(b, c) =~= without_char(a, c));
    } else {
        assert((a + b).drop_last() =~= a + b.drop_last());
        lemma_without_char_concat(a, b.drop_last(), c);
        if b.last() != c {
            assert(without_char(a, c) + without_char(b.drop_last(), c).push(b.last())
                =~= (without_char(a, c) + without_char(b.drop_last(), c)).push(b.last()));
        }
    }
}

/// A text without the character is left as it is.
pub proof fn lemma_without_absent_char(s: Seq<char>, c: char)
    requires
        forall|i: int| 0 <= i < s.len() ==> s[i] != c,
    ensures
        without_char(s, c) == s,
    decreases s.len(),
{
    if s.len() > 0 {
        lemma_without_absent_char(s.drop_last(), c);
        assert(s.drop_last().push(s.last()) =~= s);
    }
}

/// `s` with every leading `"./"` taken off (`trim_start_matches("./")`).
pub open spec fn strip_dot_slash(s: Seq<char>) -> Seq<char>
    decreases s.len(),
{
    if s.len() >= 2 && s[0] == '.' && s[1] == '/' {
        strip_dot_slash(s.subrange(2, s.len() as int))
    } else {
        s
    }
}

/// `s` ends with `t`, character for character.
pub open spec fn ends_with(s: Seq<char>, t: Seq<char>) -> bool {
    &&& t.len() <= s.len()
    &&& s.subrange(s.len() - t.len(), s.len() as int) == t
}

/// `t` occurs somewhere in `s`.
pub open spec fn contains(s: Seq<char>, t: Seq<char>) -> bool {
    exists|i: int| 0 <= i <= s.len() - t.len() && #[trigger] s.subrange(i, i + t.len()) == t
}

/// The parts joined with `sep` between each two (`[..].join(sep)`).
pub open spec fn join(parts: Seq<Seq<char>>, sep: Seq<char>) -> Seq<char>
    decreases parts.len(),
{
    if parts.len() == 0 {
        Seq::empty()
    } else if parts.len() == 1 {
        parts[0]
    } else {
        join(parts.drop_last(), sep) + sep + parts.last()
    }
}

/// The decimal digit for a value in `0..10`.
pub open spec fn decimal_digit(n: int) -> char {
    (n + 48) as char
}

/// The decimal form of a number, without leading zeros (`n.to_string()`).
pub open spec fn decimal(n: nat) -> Seq<char>
    decreases n,
{
    if n < 10 {
        seq![decimal_digit(n as int)]
    } else {
        decimal(n / 10).push(decimal_digit((n % 10) as int))
    }
}

/// Takes every leading `"./"` off a path.
pub fn strip_leading_dot_slash(s: &str) -> (r: &str)
    ensures
        r@ == strip_dot_slash(s@),
{
    let n = s.unicode_len();
    let mut i: usize = 0;
    assert(s@.subrange(0, n as int) =~= s@);
    while n - i >= 2 && s.get_char(i) == '.' && s.get_char(i + 1) == '/'
        invariant
            n == s@.len(),
            i <= n,
            strip_dot_slash(s@) == strip_dot_slash(s@.subrange(i as int, n as int)),
        decreases n - i,
    {
        let ghost t = s@.subrange(i as int, n as int);
        assert(t.subrange(2, t.len() as int) =~= s@.subrange(i + 2, n as int));
        i = i + 2;
    }
    let r = s.substring_char(i, n);
    proof {
        let t = s@.subrange(i as int, n as int);
        if t.len() >= 2 {
            assert(t[0] == s@[i as int] && t[1] == s@[i + 1]);
        }
    }
    r
}

/// True when `s` ends with `suffix`.
pub fn str_ends_with(s: &str, suffix: &str) -> (r: bool)
    ensures
        r == ends_with(s@, suffix@),
{
    let n = s.unicode_len();
    let m = suffix.unicode_len();
    if m > n {
        return false;
    }
    let start = n - m;
    let mut j: usize = 0;
    while j < m
        invariant
            n == s@.len(),
            m == suffix@.len(),
            start == n - m,
            j <= m,
            forall|k: int| 0 <= k < j ==> s@[start + k] == suffix@[k],
        decreases m - j,
    {
        if s.get_char(start + j) != suffix.get_char(j) {
            assert(s@.subrange(start as int, n as int)[j as int] != suffix@[j as int]);
            return false;
        }
        j = j + 1;
    }
    assert(s@.subrange(start as int, n as int) =~= suffix@);
    true
}

/// True when `needle` occurs in `s`.
pub fn str_contains(s: &str, needle: &str) -> (r: bool)
    ensures
        r == contains(s@, needle@),
{
    let n = s.unicode_len();
    let m = needle.unicode_len();
    if m > n {
        return false;
    }
    let mut i: usize = 0;
    while i <= n - m
        invariant
            n == s@.len(),
            m == needle@.len(),
            m <= n,
            i <= n - m + 1,
            forall|k: int| 0 <= k < i ==> #[trigger] s@.subrange(k, k + m) != needle@,
        decreases n - m + 1 - i,
    {
        let mut j: usize = 0;
        let mut same = true;
        while j < m
            invariant
                n == s@.len(),
                m == needle@.len(),
                i + m <= n,
                j <= m,
                same == (forall|k: int| 0 <= k < j ==> s@[i + k] == needle@[k]),
            decreases m - j,
        {
            if s.get_char(i + j) != needle.get_char(j) {
                same = false;
            }
            j = j + 1;
        }
        if same {
            assert(s@.subrange(i as int, i + m) =~= needle@);
            return true;
        }
        assert(s@.subrange(i as int, i + m) != needle@) by {
            let k = choose|k: int| 0 <= k < m && s@[i + k] != needle@[k];
            assert(s@.subrange(i as int, i + m)[k] != needle@[k]);
        }
        i = i + 1;
    }
    false
}

/// Joins `parts[start..]` with `sep` between each two.
pub fn join_from(parts: &Vec<String>, start: usize, sep: &str) -> (r: String)
    requires
        start <= parts.len(),
    ensures
        r@ == join(parts.deep_view().subrange(start as int, parts.len() as int), sep@),
{
    let ghost all = parts.deep_view();
    let mut out = String::new();
    let mut i = start;
    while i < parts.len()
        invariant
            start <= i <= parts.len(),
            all == parts.deep_view(),
            out@ == join(all.subrange(start as int, i as int), sep@),
        decreases parts.len() - i,
    {
        let ghost prefix = all.subrange(start as int, i + 1);
        assert(prefix.drop_last() =~= all.subrange(start as int, i as int));
        assert(prefix.last() == parts[i as int]@);
        if i > start {
            out.append(sep);
        } else {
            assert(all.subrange(start as int, i as int).len() == 0);
        }
        out.append(parts[i].as_str());
        i = i + 1;
    }
    out
}

/// Appends the decimal form of `n`.
pub fn push_decimal(out: &mut String, n: u64)
    ensures
        final(out)@ == old(out)@ + decimal(n as nat),
    decreases n,
{
    if n >= 10 {
        push_decimal(out, n / 10);
    }
    let d = n % 10;
    let c = if d == 0 { '0' } else if d == 1 { '1' } else if d == 2 { '2' } else if d == 3 { '3' }
        else if d == 4 { '4' } else if d == 5 { '5' } else if d == 6 { '6' } else if d == 7 { '7' }
        else if d == 8 { '8' } else { '9' };
    assert(c == decimal_digit(d as int));
    push_char(out, c);
    proof {
        if n >= 10 {
            assert(decimal(n as nat) == decimal((n / 10) as nat).push(c));
        } else {
            assert(decimal(n as nat) == seq![c]);
        }
    }
}

} // verus!
