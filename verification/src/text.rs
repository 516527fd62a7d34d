//! Character and string helpers shared by the target and port parsers:
//! decimal digit values, splitting on a separator, trimming whitespace and
//! stripping trailing dots.

use vstd::prelude::*;

verus! {

/// Numeric value of a decimal digit, -1 for any other character.
pub open spec fn digit_val(c: char) -> int {
    if c == '0' { 0 }
    else if c == '1' { 1 }
    else if c == '2' { 2 }
    else if c == '3' { 3 }
    else if c == '4' { 4 }
    else if c == '5' { 5 }
    else if c == '6' { 6 }
    else if c == '7' { 7 }
    else if c == '8' { 8 }
    else if c == '9' { 9 }
    else { -1 }
}

/// A decimal digit.
pub open spec fn is_digit(c: char) -> bool {
    digit_val(c) >= 0
}

/// Numeric value of a decimal digit, if `c` is one.
pub fn digit_of(c: char) -> (r: Option<u32>)
    ensures
        r is Some <==> is_digit(c),
        r is Some ==> r->0 == digit_val(c),
{
    match c {
        '0' => Some(0),
        '1' => Some(1),
        '2' => Some(2),
        '3' => Some(3),
        '4' => Some(4),
        '5' => Some(5),
        '6' => Some(6),
        '7' => Some(7),
        '8' => Some(8),
        '9' => Some(9),
        _ => None,
    }
}

/// Every character of `s` is a decimal digit.
pub open spec fn all_digits(s: Seq<char>) -> bool {
    forall|i: int| 0 <= i < s.len() ==> is_digit(#[trigger] s[i])
}

/// Value of a digit string read in the usual way, most significant first.
pub open spec fn dec_val(s: Seq<char>) -> int
    decreases s.len(),
{
    if s.len() == 0 {
        0
    } else {
        dec_val(s.drop_last()) * 10 + digit_val(s.last())
    }
}

/// Index of the first occurrence of `c` in `s`, or -1 if absent.
pub open spec fn first_index_of(s: Seq<char>, c: char) -> int
    decreases s.len(),
{
    if s.len() == 0 {
        -1
    } else if s[0] == c {
        0
    } else if first_index_of(s.drop_first(), c) == -1 {
        -1
    } else {
        1 + first_index_of(s.drop_first(), c)
    }
}

/// `first_index_of` is -1 exactly when `c` does not occur, and otherwise
/// points at the first occurrence.
pub proof fn lemma_first_index_of(s: Seq<char>, c: char)
    ensures
        first_index_of(s, c) == -1 <==> !s.contains(c),
        first_index_of(s, c) != -1 ==> {
            &&& 0 <= first_index_of(s, c) < s.len()
            &&& s[first_index_of(s, c)] == c
            &&& forall|i: int| 0 <= i < first_index_of(s, c) ==> s[i] != c
        },
    decreases s.len(),
{
    if s.len() == 0 {
    } else if s[0] == c {
        assert(s.contains(c));
    } else {
        lemma_first_index_of(s.drop_first(), c);
        let t = s.drop_first();
        if first_index_of(t, c) == -1 {
            assert(!s.contains(c)) by {
                if s.contains(c) {
                    let i = choose|i: int| 0 <= i < s.len() && s[i] == c;
                    assert(t[i - 1] == c);
                    assert(t.contains(c));
                }
            }
        } else {
            assert(s[1 + first_index_of(t, c)] == c);
            assert(s.contains(c));
            assert forall|i: int| 0 <= i < 1 + first_index_of(t, c) implies s[i] != c by {
                if i > 0 {
                    assert(s[i] == t[i - 1]);
                }
            }
        }
    }
}

/// `s` split on every occurrence of `sep`: one part more than there are
/// separators, parts in order, separators not included.
pub open spec fn split_on(s: Seq<char>, sep: char) -> Seq<Seq<char>>
    decreases s.len(),
{
    let i = first_index_of(s, sep);
    if 0 <= i && i < s.len() {
        seq![s.take(i)] + split_on(s.skip(i + 1), sep)
    } else {
        seq![s]
    }
}

/// Splitting a separator-free string yields that string as the only part.
pub proof fn lemma_split_no_sep(s: Seq<char>, sep: char)
    requires
        !s.contains(sep),
    ensures
        split_on(s, sep) == seq![s],
{
    lemma_first_index_of(s, sep);
}

/// Splitting `pre + [sep] + rest` where `pre` is separator-free peels off
/// `pre` as the first part.
pub proof fn lemma_split_at_sep(pre: Seq<char>, rest: Seq<char>, sep: char)
    requires
        !pre.contains(sep),
    ensures
        split_on(pre + seq![sep] + rest, sep) == seq![pre] + split_on(rest, sep),
{
    let s = pre + seq![sep] + rest;
    lemma_first_index_of(s, sep);
    assert(s[pre.len() as int] == sep);
    assert(s.contains(sep));
    let i = first_index_of(s, sep);
    assert(i != -1);
    assert(forall|j: int| 0 <= j < pre.len() ==> s[j] == pre[j] && s[j] != sep);
    assert(i == pre.len()) by {
        if i < pre.len() {
            assert(s[i] == sep);
        }
    }
    assert(s.take(i) =~= pre);
    assert(s.skip(i + 1) =~= rest);
}

/// A digit string has a non-negative value.
pub proof fn lemma_dec_val_nonneg(s: Seq<char>)
    requires
        all_digits(s),
    ensures
        dec_val(s) >= 0,
    decreases s.len(),
{
    if s.len() > 0 {
        assert(all_digits(s.drop_last())) by {
            assert(forall|i: int| 0 <= i < s.len() - 1 ==> s.drop_last()[i] == s[i]);
        }
        lemma_dec_val_nonneg(s.drop_last());
    }
}

/// The characters of `s`, in order.
pub fn str_chars(s: &str) -> (r: Vec<char>)
    ensures
        r@ == s@,
{
    let n: usize = s.unicode_len();
    let mut r: Vec<char> = Vec::new();
    let mut i: usize = 0;
    while i < n
        invariant
            n == s@.len(),
            i <= n,
            r@ == s@.take(i as int),
        decreases n - i,
    {
        r.push(s.get_char(i));
        i = i + 1;
        assert(r@ =~= s@.take(i as int));
    }
    assert(s@.take(n as int) =~= s@);
    r
}

/// Whether two character sequences are equal.
pub fn chars_eq(a: &Vec<char>, b: &Vec<char>) -> (r: bool)
    ensures
        r <==> a@ == b@,
{
    if a.len() != b.len() {
        return false;
    }
    let mut i: usize = 0;
    while i < a.len()
        invariant
            a@.len() == b@.len(),
            i <= a@.len(),
            forall|j: int| 0 <= j < i ==> a@[j] == b@[j],
        decreases a@.len() - i,
    {
        if a[i] != b[i] {
            return false;
        }
        i = i + 1;
    }
    assert(a@ =~= b@);
    true
}

/// `s` split on every occurrence of `sep`.
pub fn split_chars(s: &Vec<char>, sep: char) -> (parts: Vec<Vec<char>>)
    ensures
        parts.deep_view() == split_on(s@, sep),
{
    let mut parts: Vec<Vec<char>> = Vec::new();
    let mut cur: Vec<char> = Vec::new();
    let mut i: usize = 0;
    proof {
        assert(parts.deep_view() =~~= Seq::<Seq<char>>::empty());
        assert(cur@ + s@.skip(0) =~= s@);
        assert(Seq::<Seq<char>>::empty() + split_on(s@, sep) =~= split_on(s@, sep));
    }
    while i < s.len()
        invariant
            i <= s@.len(),
            !cur@.contains(sep),
            parts.deep_view() + split_on(cur@ + s@.skip(i as int), sep) == split_on(s@, sep),
        decreases s@.len() - i,
    {
        let ghost old_parts = parts.deep_view();
        let ghost old_cur = cur@;
        let c = s[i];
        assert(s@.skip(i as int) =~= seq![s@[i as int]] + s@.skip(i + 1));
        if c == sep {
            proof {
                lemma_split_at_sep(old_cur, s@.skip(i + 1), sep);
                assert(old_cur + s@.skip(i as int) =~= old_cur + seq![sep] + s@.skip(i + 1));
            }
            parts.push(cur);
            cur = Vec::new();
            proof {
                assert(parts.deep_view() =~~= old_parts.push(old_cur));
                assert(cur@ + s@.skip(i + 1) =~= s@.skip(i + 1));
                assert(parts.deep_view() + split_on(cur@ + s@.skip(i + 1), sep)
                    =~= old_parts + split_on(old_cur + s@.skip(i as int), sep));
            }
        } else {
            cur.push(c);
            proof {
                assert(cur@ + s@.skip(i + 1) =~= old_cur + s@.skip(i as int));
                assert(!cur@.contains(sep)) by {
                    if cur@.contains(sep) {
                        let j = choose|j: int| 0 <= j < cur@.len() && cur@[j] == sep;
                        assert(j < old_cur.len() ==> old_cur[j] == sep);
                    }
                }
            }
        }
        i = i + 1;
    }
    proof {
        assert(cur@ + s@.skip(i as int) =~= cur@);
        lemma_split_no_sep(cur@, sep);
    }
    let ghost old_parts = parts.deep_view();
    parts.push(cur);
    proof {
        assert(parts.deep_view() =~~= old_parts.push(cur@));
        assert(parts.deep_view() =~= split_on(s@, sep));
    }
    parts
}

/// Parses `s` as an unsigned decimal number, with the value saturated at
/// 1000000; yields nothing when `s` is empty or holds a non-digit.
pub fn parse_decimal(s: &Vec<char>) -> (r: Option<u32>)
    ensures
        r is Some <==> s@.len() >= 1 && all_digits(s@),
        r is Some ==> r->0 == (if dec_val(s@) < 1000000 {
            dec_val(s@)
        } else {
            1000000int
        }),
{
    if s.len() == 0 {
        return None;
    }
    let mut v: u32 = 0;
    let mut i: usize = 0;
    while i < s.len()
        invariant
            i <= s@.len(),
            all_digits(s@.take(i as int)),
            dec_val(s@.take(i as int)) < 1000000 ==> v == dec_val(s@.take(i as int)),
            dec_val(s@.take(i as int)) >= 1000000 ==> v == 1000000,
        decreases s@.len() - i,
    {
        let c = s[i];
        let d: u32 = match digit_of(c) {
            Some(d) => d,
            None => {
                assert(!is_digit(s@[i as int]));
                return None;
            },
        };
        proof {
            lemma_dec_val_nonneg(s@.take(i as int));
            assert(s@.take(i + 1).drop_last() =~= s@.take(i as int));
            assert(s@.take(i + 1).last() == s@[i as int]);
            assert(dec_val(s@.take(i + 1)) == dec_val(s@.take(i as int)) * 10 + digit_val(
                s@[i as int],
            ));
        }
        let w: u32 = v * 10 + d;
        v = if w >= 1000000 {
            1000000
        } else {
            w
        };
        assert forall|j: int| 0 <= j < i + 1 implies is_digit(#[trigger] s@.take(i + 1)[j]) by {
            assert(s@.take(i + 1)[j] == s@[j]);
            if j < i {
                assert(is_digit(s@.take(i as int)[j]));
            }
        }
        i = i + 1;
    }
    assert(s@.take(i as int) =~= s@);
    Some(v)
}

/// A whitespace character, as the Unicode White_Space property lists them.
pub open spec fn is_space(c: char) -> bool {
    ||| c == '\u{0009}' || c == '\u{000A}' || c == '\u{000B}' || c == '\u{000C}'
    ||| c == '\u{000D}' || c == '\u{0020}' || c == '\u{0085}' || c == '\u{00A0}'
    ||| c == '\u{1680}' || c == '\u{2000}' || c == '\u{2001}' || c == '\u{2002}'
    ||| c == '\u{2003}' || c == '\u{2004}' || c == '\u{2005}' || c == '\u{2006}'
    ||| c == '\u{2007}' || c == '\u{2008}' || c == '\u{2009}' || c == '\u{200A}'
    ||| c == '\u{2028}' || c == '\u{2029}' || c == '\u{202F}' || c == '\u{205F}'
    ||| c == '\u{3000}'
}

/// `s` without its leading whitespace.
pub open spec fn trim_start_spec(s: Seq<char>) -> Seq<char>
    decreases s.len(),
{
    if s.len() > 0 && is_space(s[0]) {
        trim_start_spec(s.drop_first())
    } else {
        s
    }
}

/// `s` without its trailing whitespace.
pub open spec fn trim_end_spec(s: Seq<char>) -> Seq<char>
    decreases s.len(),
{
    if s.len() > 0 && is_space(s.last()) {
        trim_end_spec(s.drop_last())
    } else {
        s
    }
}

/// `s` without leading and trailing whitespace.
pub open spec fn trim_spec(s: Seq<char>) -> Seq<char> {
    trim_end_spec(trim_start_spec(s))
}

/// Whether `c` is whitespace.
pub fn is_space_char(c: char) -> (r: bool)
    ensures
        r == is_space(c),
{
    c == '\u{0009}' || c == '\u{000A}' || c == '\u{000B}' || c == '\u{000C}'
        || c == '\u{000D}' || c == '\u{0020}' || c == '\u{0085}' || c == '\u{00A0}'
        || c == '\u{1680}' || c == '\u{2000}' || c == '\u{2001}' || c == '\u{2002}'
        || c == '\u{2003}' || c == '\u{2004}' || c == '\u{2005}' || c == '\u{2006}'
        || c == '\u{2007}' || c == '\u{2008}' || c == '\u{2009}' || c == '\u{200A}'
        || c == '\u{2028}' || c == '\u{2029}' || c == '\u{202F}' || c == '\u{205F}'
        || c == '\u{3000}'
}

/// `s` without leading and trailing whitespace.
pub fn trim_chars(s: &Vec<char>) -> (r: Vec<char>)
    ensures
        r@ == trim_spec(s@),
{
    let mut lo: usize = 0;
    proof {
        assert(s@.skip(0) =~= s@);
    }
    while lo < s.len() && is_space_char(s[lo])
        invariant
            lo <= s@.len(),
            trim_start_spec(s@) == trim_start_spec(s@.skip(lo as int)),
        decreases s@.len() - lo,
    {
        proof {
            assert(s@.skip(lo as int).drop_first() =~= s@.skip(lo + 1));
        }
        lo = lo + 1;
    }
    assert(trim_start_spec(s@) == s@.skip(lo as int)) by {
        if lo < s@.len() {
            assert(s@.skip(lo as int)[0] == s@[lo as int]);
        } else {
            assert(s@.skip(lo as int) =~= Seq::<char>::empty());
        }
    }
    let mut hi: usize = s.len();
    proof {
        assert(s@.subrange(lo as int, hi as int) =~= s@.skip(lo as int));
    }
    while hi > lo && is_space_char(s[hi - 1])
        invariant
            lo <= hi <= s@.len(),
            trim_end_spec(s@.skip(lo as int)) == trim_end_spec(s@.subrange(lo as int, hi as int)),
        decreases hi,
    {
        proof {
            assert(s@.subrange(lo as int, hi as int).drop_last() =~= s@.subrange(
                lo as int,
                hi - 1,
            ));
            assert(s@.subrange(lo as int, hi as int).last() == s@[hi - 1]);
        }
        hi = hi - 1;
    }
    assert(trim_spec(s@) == s@.subrange(lo as int, hi as int)) by {
        if hi > lo {
            assert(s@.subrange(lo as int, hi as int).last() == s@[hi - 1]);
        } else {
            assert(s@.subrange(lo as int, hi as int) =~= Seq::<char>::empty());
        }
    }
    let mut r: Vec<char> = Vec::new();
    let mut j: usize = lo;
    while j < hi
        invariant
            lo <= j <= hi <= s@.len(),
            r@ == s@.subrange(lo as int, j as int),
        decreases hi - j,
    {
        r.push(s[j]);
        j = j + 1;
        assert(r@ =~= s@.subrange(lo as int, j as int));
    }
    r
}

/// `s` without any trailing `'.'` characters.
pub open spec fn strip_trailing_dots_spec(s: Seq<char>) -> Seq<char>
    decreases s.len(),
{
    if s.len() > 0 && s.last() == '.' {
        strip_trailing_dots_spec(s.drop_last())
    } else {
        s
    }
}

/// `s` without any trailing `'.'` characters.
pub fn strip_trailing_dots(s: &str) -> (r: String)
    ensures
        r@ == strip_trailing_dots_spec(s@),
{
    let n: usize = s.unicode_len();
    let mut hi: usize = n;
    proof {
        assert(s@.take(n as int) =~= s@);
    }
    while hi > 0 && s.get_char(hi - 1) == '.'
        invariant
            hi <= n,
            n == s@.len(),
            strip_trailing_dots_spec(s@) == strip_trailing_dots_spec(s@.take(hi as int)),
        decreases hi,
    {
        proof {
            assert(s@.take(hi as int).drop_last() =~= s@.take(hi - 1));
            assert(s@.take(hi as int).last() == s@[hi - 1]);
        }
        hi = hi - 1;
    }
    assert(strip_trailing_dots_spec(s@) == s@.take(hi as int)) by {
        if hi > 0 {
            assert(s@.take(hi as int).last() == s@[hi - 1]);
        } else {
            assert(s@.take(hi as int) =~= Seq::<char>::empty());
        }
    }
    let sub = s.substring_char(0, hi);
    String::from_str(sub)
}


/// Numeric value of a hexadecimal digit, -1 for any other character.
pub open spec fn hex_digit_val(c: char) -> int {
    if is_digit(c) { digit_val(c) }
    else if c == 'a' || c == 'A' { 10 }
    else if c == 'b' || c == 'B' { 11 }
    else if c == 'c' || c == 'C' { 12 }
    else if c == 'd' || c == 'D' { 13 }
    else if c == 'e' || c == 'E' { 14 }
    else if c == 'f' || c == 'F' { 15 }
    else { -1 }
}

/// A hexadecimal digit.
pub open spec fn is_hex_digit(c: char) -> bool {
    hex_digit_val(c) >= 0
}

/// Numeric value of a hexadecimal digit, if `c` is one.
pub fn hex_digit_of(c: char) -> (r: Option<u32>)
    ensures
        r is Some <==> is_hex_digit(c),
        r is Some ==> r->0 == hex_digit_val(c),
{
    match digit_of(c) {
        Some(d) => Some(d),
        None => match c {
            'a' | 'A' => Some(10),
            'b' | 'B' => Some(11),
            'c' | 'C' => Some(12),
            'd' | 'D' => Some(13),
            'e' | 'E' => Some(14),
            'f' | 'F' => Some(15),
            _ => None,
        },
    }
}

/// Every character of `s` is a hexadecimal digit.
pub open spec fn all_hex_digits(s: Seq<char>) -> bool {
    forall|i: int| 0 <= i < s.len() ==> is_hex_digit(#[trigger] s[i])
}

/// Value of a hexadecimal digit string, most significant first.
pub open spec fn hex_val(s: Seq<char>) -> int
    decreases s.len(),
{
    if s.len() == 0 {
        0
    } else {
        hex_val(s.drop_last()) * 16 + hex_digit_val(s.last())
    }
}

/// Parses `s` as a hexadecimal number of at most four digits; yields
/// nothing when `s` is empty, longer than four characters, or holds a
/// character that is no hexadecimal digit.
pub fn parse_hex_quad(s: &Vec<char>) -> (r: Option<u16>)
    ensures
        r is Some <==> 1 <= s@.len() <= 4 && all_hex_digits(s@),
        r is Some ==> r->0 as int == hex_val(s@),
{
    if s.len() < 1 || s.len() > 4 {
        return None;
    }
    let mut v: u32 = 0;
    let mut i: usize = 0;
    while i < s.len()
        invariant
            i <= s@.len() <= 4,
            all_hex_digits(s@.take(i as int)),
            v == hex_val(s@.take(i as int)),
            i == 0 ==> v == 0,
            i == 1 ==> v < 0x10,
            i == 2 ==> v < 0x100,
            i == 3 ==> v < 0x1000,
            i == 4 ==> v < 0x10000,
        decreases s@.len() - i,
    {
        let c = s[i];
        let d: u32 = match hex_digit_of(c) {
            Some(d) => d,
            None => {
                assert(!is_hex_digit(s@[i as int]));
                return None;
            },
        };
        proof {
            assert(s@.take(i + 1).drop_last() =~= s@.take(i as int));
            assert(s@.take(i + 1).last() == s@[i as int]);
        }
        v = v * 16 + d;
        assert forall|j: int| 0 <= j < i + 1 implies is_hex_digit(#[trigger] s@.take(i + 1)[j]) by {
            assert(s@.take(i + 1)[j] == s@[j]);
            if j < i {
                assert(is_hex_digit(s@.take(i as int)[j]));
            }
        }
        i = i + 1;
    }
    assert(s@.take(i as int) =~= s@);
    Some(v as u16)
}

} // verus!
