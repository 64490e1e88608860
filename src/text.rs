use vstd::prelude::*;
use vstd::string::*;
use vstd::utf8::is_ascii_chars;

verus! {

/// ASCII white space: space, tab, line feed, vertical tab, form feed,
/// carriage return.
pub open spec fn is_space(c: char) -> bool {
    c == ' ' || c == '\t' || c == '\n' || c == '\u{b}' || c == '\u{c}' || c == '\r'
}

/// The first position from `i` on that holds no white space, or the length.
pub open spec fn first_non_space(s: Seq<char>, i: int) -> int
    decreases s.len() - i,
{
    if i < 0 || i >= s.len() || !is_space(s[i]) {
        i
    } else {
        first_non_space(s, i + 1)
    }
}

/// The end of `s[lo..j]` once the white space at its end is taken off.
pub open spec fn end_non_space(s: Seq<char>, lo: int, j: int) -> int
    decreases j - lo,
{
    if j <= lo || j > s.len() || !is_space(s[j - 1]) {
        j
    } else {
        end_non_space(s, lo, j - 1)
    }
}

/// `s` without the white space at either end.
pub open spec fn trim(s: Seq<char>) -> Seq<char> {
    let a = first_non_space(s, 0);
    s.subrange(a, end_non_space(s, a, s.len() as int))
}

/// The pieces of `s` between occurrences of `sep`; there is always one
/// more piece than occurrences.
pub open spec fn split(s: Seq<char>, sep: char) -> Seq<Seq<char>>
    decreases s.len(),
{
    if s.len() == 0 {
        seq![Seq::empty()]
    } else {
        let pre = split(s.drop_last(), sep);
        if s.last() == sep {
            pre.push(Seq::empty())
        } else {
            pre.update(pre.len() - 1, pre.last().push(s.last()))
        }
    }
}

/// A split has at least one piece.
pub proof fn lemma_split_nonempty(s: Seq<char>, sep: char)
    ensures
        split(s, sep).len() >= 1,
    decreases s.len(),
{
    if s.len() > 0 {
        lemma_split_nonempty(s.drop_last(), sep);
    }
}

/// The pieces of an ASCII text are ASCII.
pub proof fn lemma_split_ascii(s: Seq<char>, sep: char)
    requires
        is_ascii_chars(s),
    ensures
        forall|i: int| 0 <= i < split(s, sep).len() ==> is_ascii_chars(#[trigger] split(s, sep)[i]),
    decreases s.len(),
{
    if s.len() > 0 {
        let d = s.drop_last();
        assert forall|k: int| 0 <= k < d.len() implies '\0' <= #[trigger] d[k] <= '\u{7f}' by {
            assert(d[k] == s[k]);
        }
        lemma_split_ascii(d, sep);
        lemma_split_nonempty(d, sep);
        let pre = split(d, sep);
        assert(is_ascii_chars(Seq::<char>::empty()));
        if s.last() != sep {
            let piece = pre.last().push(s.last());
            assert(is_ascii_chars(pre[pre.len() - 1]));
            assert('\0' <= s[s.len() - 1] <= '\u{7f}');
            assert forall|k: int| 0 <= k < piece.len() implies '\0' <= #[trigger] piece[k] <= '\u{7f}' by {
                if k < piece.len() - 1 {
                    assert(piece[k] == pre.last()[k]);
                }
            }
        }
    }
}

/// A decimal digit.
pub open spec fn is_digit(c: char) -> bool {
    '0' <= c <= '9'
}

/// The number that the decimal digits `s` write.
pub open spec fn digits_value(s: Seq<char>) -> nat
    decreases s.len(),
{
    if s.len() == 0 {
        0
    } else {
        digits_value(s.drop_last()) * 10 + (s.last() as nat - '0' as nat) as nat
    }
}

/// The `u64` that the digits `s` write in decimal, if they are a non-empty
/// run of digits whose value fits.
pub open spec fn parse_digits_spec(s: Seq<char>) -> Option<u64> {
    if s.len() > 0 && (forall|i: int| 0 <= i < s.len() ==> is_digit(#[trigger] s[i]))
        && digits_value(s) <= u64::MAX {
        Some(digits_value(s) as u64)
    } else {
        None
    }
}

/// The `u64` that the text `s` writes in decimal: digits, optionally
/// behind a `+` sign.
pub open spec fn parse_u64_spec(s: Seq<char>) -> Option<u64> {
    if s.len() > 0 && s[0] == '+' {
        parse_digits_spec(s.drop_first())
    } else {
        parse_digits_spec(s)
    }
}

/// A longer run of digits writes a value no smaller.
pub proof fn lemma_digits_value_monotonic(s: Seq<char>, i: int, j: int)
    requires
        0 <= i <= j <= s.len(),
        forall|k: int| 0 <= k < s.len() ==> is_digit(#[trigger] s[k]),
    ensures
        digits_value(s.subrange(0, i)) <= digits_value(s.subrange(0, j)),
    decreases j - i,
{
    if i < j {
        lemma_digits_value_monotonic(s, i, j - 1);
        assert(s.subrange(0, j).drop_last() =~= s.subrange(0, j - 1));
        assert(is_digit(s[j - 1]));
    }
}

/// The character at `i` of the ASCII text `s`, as a byte.
fn byte_at(s: &str, i: usize) -> (b: u8)
    requires
        is_ascii(s),
        i < s@.len(),
    ensures
        b as int == s@[i as int] as u32 as int,
{
    assert('\0' <= s@[i as int] <= '\u{7f}');
    s.get_ascii(i)
}

/// `s` without the white space at either end.
pub(crate) fn trim_ascii(s: &str) -> (r: &str)
    requires
        is_ascii(s),
    ensures
        r@ == trim(s@),
        is_ascii(r),
{
    let n = s.unicode_len();
    let mut a: usize = 0;
    while a < n && is_space_at(s, a)
        invariant
            a <= n,
            n == s@.len(),
            is_ascii(s),
            first_non_space(s@, 0) == first_non_space(s@, a as int),
        decreases n - a,
    {
        a += 1;
    }
    let mut b: usize = n;
    while b > a && is_space_at(s, b - 1)
        invariant
            a <= b <= n,
            n == s@.len(),
            is_ascii(s),
            a == first_non_space(s@, 0),
            end_non_space(s@, a as int, n as int) == end_non_space(s@, a as int, b as int),
        decreases b - a,
    {
        b -= 1;
    }
    s.substring_ascii(a, b)
}

/// Whether the character at `i` of the ASCII text `s` is white space.
fn is_space_at(s: &str, i: usize) -> (r: bool)
    requires
        is_ascii(s),
        i < s@.len(),
    ensures
        r == is_space(s@[i as int]),
{
    let b = byte_at(s, i);
    b == 32 || b == 9 || b == 10 || b == 11 || b == 12 || b == 13
}

/// The pieces of the ASCII text `s` between occurrences of `sep`.
pub(crate) fn split_ascii(s: &str, sep: char) -> (r: Vec<String>)
    requires
        is_ascii(s),
    ensures
        r.deep_view() == split(s@, sep),
{
    let n = s.unicode_len();
    let mut r: Vec<String> = Vec::new();
    let mut start: usize = 0;
    let mut i: usize = 0;
    assert(s@.subrange(0, 0) =~= Seq::<char>::empty());
    assert(r.deep_view() =~= Seq::<Seq<char>>::empty());
    assert(split(Seq::<char>::empty(), sep) =~= r.deep_view().push(s@.subrange(0, 0)));
    while i < n
        invariant
            start <= i <= n,
            n == s@.len(),
            is_ascii(s),
            split(s@.subrange(0, i as int), sep) == r.deep_view().push(s@.subrange(start as int, i as int)),
        decreases n - i,
    {
        let ghost pre = s@.subrange(0, i as int);
        assert(s@.subrange(0, i as int + 1).drop_last() =~= pre);
        let ghost old_dv = r.deep_view();
        if byte_at(s, i) as u32 == sep as u32 {
            let piece = s.substring_ascii(start, i).to_owned();
            r.push(piece);
            assert(r.deep_view() =~= old_dv.push(s@.subrange(start as int, i as int)));
            start = i + 1;
            assert(s@.subrange(start as int, i as int + 1) =~= Seq::<char>::empty());
            assert(r.deep_view().push(s@.subrange(start as int, i as int + 1)) =~= split(pre, sep).push(Seq::empty()));
        } else {
            assert(s@.subrange(start as int, i as int + 1) =~= s@.subrange(start as int, i as int).push(s@[i as int]));
            assert(r.deep_view().push(s@.subrange(start as int, i as int + 1)) =~= split(pre, sep).update(
                split(pre, sep).len() - 1,
                split(pre, sep).last().push(s@[i as int]),
            ));
        }
        i += 1;
    }
    assert(s@.subrange(0, n as int) =~= s@);
    let ghost old_dv = r.deep_view();
    let piece = s.substring_ascii(start, n).to_owned();
    r.push(piece);
    assert(r.deep_view() =~= old_dv.push(s@.subrange(start as int, n as int)));
    r
}

/// The `u64` that the ASCII text `s` writes in decimal, optionally behind
/// a `+` sign.
pub(crate) fn parse_u64(s: &str) -> (r: Option<u64>)
    requires
        is_ascii(s),
    ensures
        r == parse_u64_spec(s@),
{
    let n = s.unicode_len();
    if n > 0 && byte_at(s, 0) == 43 {
        let digits = s.substring_ascii(1, n);
        assert(digits@ =~= s@.drop_first());
        parse_digits(digits)
    } else {
        parse_digits(s)
    }
}

/// The `u64` that the ASCII digits `s` write in decimal.
fn parse_digits(s: &str) -> (r: Option<u64>)
    requires
        is_ascii(s),
    ensures
        r == parse_digits_spec(s@),
{
    let n = s.unicode_len();
    if n == 0 {
        return None;
    }
    let mut v: u64 = 0;
    let mut i: usize = 0;
    while i < n
        invariant
            i <= n,
            n == s@.len(),
            n > 0,
            is_ascii(s),
            forall|k: int| 0 <= k < i ==> is_digit(#[trigger] s@[k]),
            v == digits_value(s@.subrange(0, i as int)),
        decreases n - i,
    {
        let b = byte_at(s, i);
        if b < 48 || b > 57 {
            assert(!is_digit(s@[i as int]));
            return None;
        }
        let nv: u128 = (v as u128) * 10 + (b - 48) as u128;
        assert(s@.subrange(0, i as int + 1).drop_last() =~= s@.subrange(0, i as int));
        assert(nv == digits_value(s@.subrange(0, i as int + 1)));
        if nv > u64::MAX as u128 {
            proof {
                if forall|k: int| 0 <= k < s@.len() ==> is_digit(#[trigger] s@[k]) {
                    lemma_digits_value_monotonic(s@, i as int + 1, n as int);
                    assert(s@.subrange(0, n as int) =~= s@);
                }
            }
            return None;
        }
        v = nv as u64;
        i += 1;
    }
    assert(s@.subrange(0, n as int) =~= s@);
    Some(v)
}

} // verus!
