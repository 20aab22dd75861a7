//! Verified helpers on strings: decimal digits and substring search.

use vstd::prelude::*;
use vstd::string::StringExecFns;

verus! {

/// One character is a decimal digit.
pub open spec fn is_digit_char(c: char) -> bool {
    '0' <= c && c <= '9'
}

/// Numeric value of one digit character.
pub open spec fn digit_value(c: char) -> nat
    recommends
        is_digit_char(c),
{
    ((c as u32) - ('0' as u32)) as nat
}

/// Every character of the sequence is a decimal digit.
pub open spec fn all_digits(s: Seq<char>) -> bool {
    forall|i: int| 0 <= i < s.len() ==> is_digit_char(#[trigger] s[i])
}

/// Value of a sequence of decimal digits, most significant first.
pub open spec fn digits_value(s: Seq<char>) -> nat
    decreases s.len(),
{
    if s.len() == 0 {
        0
    } else {
        digits_value(s.drop_last()) * 10 + digit_value(s.last())
    }
}

/// Extending a digit string on the right never decreases its value.
pub proof fn lemma_digits_value_extend(s: Seq<char>, i: int, j: int)
    requires
        0 <= i <= j <= s.len(),
    ensures
        digits_value(s.subrange(0, i)) <= digits_value(s.subrange(0, j)),
    decreases j - i,
{
    if i < j {
        lemma_digits_value_extend(s, i, j - 1);
        assert(s.subrange(0, j).drop_last() =~= s.subrange(0, j - 1));
        assert(digits_value(s.subrange(0, j)) == digits_value(s.subrange(0, j - 1)) * 10
            + digit_value(s.subrange(0, j).last()));
    }
}

/// Reads an unsigned decimal number; `None` when the string is empty, holds
/// a character other than a digit, or its value does not fit in `u64`.
pub fn parse_u64_digits(s: &str) -> (r: Option<u64>)
    ensures
        match r {
            Some(n) => s@.len() > 0 && all_digits(s@) && digits_value(s@) == n,
            None => s@.len() == 0 || !all_digits(s@) || digits_value(s@) > u64::MAX,
        },
{
    let n = s.unicode_len();
    if n == 0 {
        return None;
    }
    let mut acc: u64 = 0;
    let mut i: usize = 0;
    while i < n
        invariant
            0 <= i <= n,
            n == s@.len(),
            all_digits(s@.subrange(0, i as int)),
            acc == digits_value(s@.subrange(0, i as int)),
        decreases n - i,
    {
        let c = s.get_char(i);
        if c < '0' || '9' < c {
            assert(!is_digit_char(s@[i as int]));
            return None;
        }
        let d: u64 = ((c as u32) - ('0' as u32)) as u64;
        if acc > (u64::MAX - d) / 10 {
            proof {
                assert(s@.subrange(0, i + 1).drop_last() =~= s@.subrange(0, i as int));
                assert(s@.subrange(0, i + 1).last() == s@[i as int]);
                assert(acc * 10 + d > u64::MAX) by (nonlinear_arith)
                    requires
                        acc > (u64::MAX - d) / 10,
                        0 <= d < 10,
                        acc <= u64::MAX,
                ;
                lemma_digits_value_extend(s@, i + 1, s@.len() as int);
                assert(s@.subrange(0, s@.len() as int) =~= s@);
            }
            return None;
        }
        proof {
            assert(s@.subrange(0, i + 1).drop_last() =~= s@.subrange(0, i as int));
            assert(s@.subrange(0, i + 1).last() == s@[i as int]);
        }
        acc = acc * 10 + d;
        i = i + 1;
    }
    proof {
        assert(s@.subrange(0, n as int) =~= s@);
    }
    Some(acc)
}

/// The character standing for one decimal digit.
pub open spec fn char_of_digit(d: int) -> char {
    if d == 0 {
        '0'
    } else if d == 1 {
        '1'
    } else if d == 2 {
        '2'
    } else if d == 3 {
        '3'
    } else if d == 4 {
        '4'
    } else if d == 5 {
        '5'
    } else if d == 6 {
        '6'
    } else if d == 7 {
        '7'
    } else if d == 8 {
        '8'
    } else {
        '9'
    }
}

/// Decimal writing of a non-negative number, without leading zeroes.
pub open spec fn dec_str(n: int) -> Seq<char>
    recommends
        n >= 0,
    decreases n,
{
    if n < 10 {
        seq![char_of_digit(n)]
    } else {
        dec_str(n / 10).push(char_of_digit(n % 10))
    }
}

/// The decimal writing of a number reads back as that number.
pub proof fn lemma_dec_str_value(n: int)
    requires
        n >= 0,
    ensures
        dec_str(n).len() >= 1,
        all_digits(dec_str(n)),
        digits_value(dec_str(n)) == n,
    decreases n,
{
    if n < 10 {
        assert(digits_value(dec_str(n)) == digits_value(seq![char_of_digit(n)].drop_last()) * 10
            + digit_value(char_of_digit(n)));
        assert(seq![char_of_digit(n)].drop_last() =~= Seq::<char>::empty());
    } else {
        lemma_dec_str_value(n / 10);
        let s = dec_str(n / 10).push(char_of_digit(n % 10));
        assert(s.drop_last() =~= dec_str(n / 10));
        assert(all_digits(s)) by {
            assert(forall|i: int|
                0 <= i < s.len() - 1 ==> s[i] == dec_str(n / 10)[i] && is_digit_char(
                    #[trigger] s[i],
                ));
        }
        assert(digits_value(s) == (n / 10) * 10 + (n % 10));
    }
}

/// One digit as a string slice.
fn digit_str(d: u64) -> (r: &'static str)
    requires
        d < 10,
    ensures
        r@ =~= seq![char_of_digit(d as int)],
{
    if d == 0 {
        let s = "0";
        proof {
            reveal_strlit("0");
        }
        s
    } else if d == 1 {
        let s = "1";
        proof {
            reveal_strlit("1");
        }
        s
    } else if d == 2 {
        let s = "2";
        proof {
            reveal_strlit("2");
        }
        s
    } else if d == 3 {
        let s = "3";
        proof {
            reveal_strlit("3");
        }
        s
    } else if d == 4 {
        let s = "4";
        proof {
            reveal_strlit("4");
        }
        s
    } else if d == 5 {
        let s = "5";
        proof {
            reveal_strlit("5");
        }
        s
    } else if d == 6 {
        let s = "6";
        proof {
            reveal_strlit("6");
        }
        s
    } else if d == 7 {
        let s = "7";
        proof {
            reveal_strlit("7");
        }
        s
    } else if d == 8 {
        let s = "8";
        proof {
            reveal_strlit("8");
        }
        s
    } else {
        let s = "9";
        proof {
            reveal_strlit("9");
        }
        s
    }
}

/// Writes a number in decimal.
pub fn u64_to_string(n: u64) -> (r: String)
    ensures
        r@ == dec_str(n as int),
    decreases n,
{
    if n < 10 {
        String::from_str(digit_str(n))
    } else {
        let mut s = u64_to_string(n / 10);
        s.append(digit_str(n % 10));
        proof {
            assert(dec_str((n / 10) as int) + seq![char_of_digit((n % 10) as int)] =~= dec_str(
                (n / 10) as int,
            ).push(char_of_digit((n % 10) as int)));
            assert((n as int) / 10 == (n / 10) as int);
            assert((n as int) % 10 == (n % 10) as int);
        }
        s
    }
}

/// The pattern occurs in the string starting at position `i`.
pub open spec fn matches_at(s: Seq<char>, pat: Seq<char>, i: int) -> bool {
    0 <= i && i + pat.len() <= s.len() && s.subrange(i, i + pat.len()) == pat
}

/// The pattern occurs somewhere in the string.
pub open spec fn contains_substring(s: Seq<char>, pat: Seq<char>) -> bool {
    exists|i: int| matches_at(s, pat, i)
}

/// Splitting, written left to right: the segment built so far is closed
/// by a separator or by the end of the string.
pub open spec fn split_acc(s: Seq<char>, sep: char, cur: Seq<char>) -> Seq<Seq<char>>
    decreases s.len(),
{
    if s.len() == 0 {
        seq![cur]
    } else if s[0] == sep {
        seq![cur] + split_acc(s.drop_first(), sep, Seq::empty())
    } else {
        split_acc(s.drop_first(), sep, cur.push(s[0]))
    }
}

/// The segments of a string between its separators; empty segments are
/// kept, and the empty string has one empty segment.
pub open spec fn split_seq(s: Seq<char>, sep: char) -> Seq<Seq<char>> {
    split_acc(s, sep, Seq::empty())
}

/// Splits a string at every occurrence of the separator.
pub fn split_str(s: &str, sep: char) -> (r: Vec<String>)
    ensures
        r@.map_values(|t: String| t@) == split_seq(s@, sep),
{
    let n = s.unicode_len();
    let mut out: Vec<String> = Vec::new();
    let mut start: usize = 0;
    let mut i: usize = 0;
    proof {
        let f = |t: String| t@;
        assert(s@.subrange(0, n as int) =~= s@);
        assert(s@.subrange(0, 0) =~= Seq::<char>::empty());
        assert(out@.map_values(f) =~= Seq::<Seq<char>>::empty());
        assert(Seq::<Seq<char>>::empty() + split_acc(s@, sep, Seq::empty()) =~= split_acc(
            s@,
            sep,
            Seq::empty(),
        ));
    }
    while i < n
        invariant
            0 <= start <= i <= n,
            n == s@.len(),
            n <= usize::MAX,
            split_seq(s@, sep) == out@.map_values(|t: String| t@) + split_acc(
                s@.subrange(i as int, n as int),
                sep,
                s@.subrange(start as int, i as int),
            ),
        decreases n - i,
    {
        let c = s.get_char(i);
        let ghost rest = s@.subrange(i as int, n as int);
        let ghost seg = s@.subrange(start as int, i as int);
        proof {
            assert(rest[0] == s@[i as int]);
            assert(rest.drop_first() =~= s@.subrange(i + 1, n as int));
        }
        if c == sep {
            let piece = s.substring_char(start, i);
            let ghost prev = out@;
            out.push(String::from_str(piece));
            proof {
                let f = |t: String| t@;
                assert(out@.map_values(f) =~= prev.map_values(f) + seq![seg]);
                assert(split_acc(rest, sep, seg) == seq![seg] + split_acc(
                    rest.drop_first(),
                    sep,
                    Seq::empty(),
                ));
                assert(s@.subrange(i + 1, i + 1) =~= Seq::<char>::empty());
                assert((prev.map_values(f) + seq![seg]) + split_acc(
                    rest.drop_first(),
                    sep,
                    Seq::empty(),
                ) =~= prev.map_values(f) + (seq![seg] + split_acc(
                    rest.drop_first(),
                    sep,
                    Seq::empty(),
                )));
            }
            start = i + 1;
        } else {
            proof {
                assert(seg.push(s@[i as int]) =~= s@.subrange(start as int, i + 1));
            }
        }
        i = i + 1;
    }
    let piece = s.substring_char(start, n);
    let ghost prev = out@;
    out.push(String::from_str(piece));
    proof {
        let f = |t: String| t@;
        let seg = s@.subrange(start as int, n as int);
        assert(s@.subrange(i as int, n as int) =~= Seq::<char>::empty());
        assert(split_acc(s@.subrange(i as int, n as int), sep, seg) == seq![seg]);
        assert(out@.map_values(f) =~= prev.map_values(f) + seq![seg]);
    }
    out
}

/// Compares two strings character by character.
pub fn str_eq(a: &str, b: &str) -> (r: bool)
    ensures
        r == (a@ == b@),
{
    let n = a.unicode_len();
    let m = b.unicode_len();
    if n != m {
        return false;
    }
    let mut i: usize = 0;
    while i < n
        invariant
            0 <= i <= n,
            n == a@.len(),
            n == b@.len(),
            forall|k: int| 0 <= k < i ==> a@[k] == b@[k],
        decreases n - i,
    {
        if a.get_char(i) != b.get_char(i) {
            return false;
        }
        i = i + 1;
    }
    proof {
        assert(a@ =~= b@);
    }
    true
}

/// Position of the first occurrence of a character, or -1.
pub open spec fn find_char(s: Seq<char>, c: char) -> int
    decreases s.len(),
{
    if s.len() == 0 {
        -1
    } else if s[0] == c {
        0
    } else {
        let r = find_char(s.drop_first(), c);
        if r == -1 {
            -1
        } else {
            r + 1
        }
    }
}

/// Position of the last occurrence of a character, or -1.
pub open spec fn rfind_char(s: Seq<char>, c: char) -> int
    decreases s.len(),
{
    if s.len() == 0 {
        -1
    } else if s.last() == c {
        s.len() - 1
    } else {
        rfind_char(s.drop_last(), c)
    }
}

/// What `find_char` returns: the position of the first occurrence.
pub proof fn lemma_find_char(s: Seq<char>, c: char)
    ensures
        find_char(s, c) == -1 ==> forall|i: int| 0 <= i < s.len() ==> s[i] != c,
        find_char(s, c) != -1 ==> 0 <= find_char(s, c) < s.len() && s[find_char(s, c)] == c && (
        forall|i: int| 0 <= i < find_char(s, c) ==> s[i] != c),
    decreases s.len(),
{
    if s.len() == 0 {
    } else if s[0] == c {
    } else {
        lemma_find_char(s.drop_first(), c);
        assert(forall|i: int| 0 < i < s.len() ==> s[i] == s.drop_first()[i - 1]);
    }
}

/// What `rfind_char` returns: the position of the last occurrence.
pub proof fn lemma_rfind_char(s: Seq<char>, c: char)
    ensures
        rfind_char(s, c) == -1 ==> forall|i: int| 0 <= i < s.len() ==> s[i] != c,
        rfind_char(s, c) != -1 ==> 0 <= rfind_char(s, c) < s.len() && s[rfind_char(s, c)] == c && (
        forall|i: int| rfind_char(s, c) < i < s.len() ==> s[i] != c),
    decreases s.len(),
{
    if s.len() == 0 {
    } else if s.last() == c {
    } else {
        lemma_rfind_char(s.drop_last(), c);
        assert(forall|i: int| 0 <= i < s.len() - 1 ==> s[i] == s.drop_last()[i]);
    }
}

/// Finds the first occurrence of a character.
pub fn find_char_str(s: &str, c: char) -> (r: Option<usize>)
    ensures
        match r {
            Some(i) => i == find_char(s@, c),
            None => find_char(s@, c) == -1,
        },
{
    let n = s.unicode_len();
    let mut i: usize = 0;
    proof {
        lemma_find_char(s@, c);
    }
    while i < n
        invariant
            0 <= i <= n,
            n == s@.len(),
            forall|k: int| 0 <= k < i ==> s@[k] != c,
            find_char(s@, c) == -1 ==> forall|k: int| 0 <= k < s@.len() ==> s@[k] != c,
            find_char(s@, c) != -1 ==> 0 <= find_char(s@, c) < s@.len() && s@[find_char(s@, c)]
                == c && (forall|k: int| 0 <= k < find_char(s@, c) ==> s@[k] != c),
        decreases n - i,
    {
        if s.get_char(i) == c {
            proof {
                assert(find_char(s@, c) == i);
            }
            return Some(i);
        }
        i = i + 1;
    }
    None
}

/// Finds the last occurrence of a character.
pub fn rfind_char_str(s: &str, c: char) -> (r: Option<usize>)
    ensures
        match r {
            Some(i) => i == rfind_char(s@, c),
            None => rfind_char(s@, c) == -1,
        },
{
    let n = s.unicode_len();
    let mut i: usize = n;
    proof {
        lemma_rfind_char(s@, c);
    }
    while i > 0
        invariant
            0 <= i <= n,
            n == s@.len(),
            forall|k: int| i <= k < n ==> s@[k] != c,
            rfind_char(s@, c) == -1 ==> forall|k: int| 0 <= k < s@.len() ==> s@[k] != c,
            rfind_char(s@, c) != -1 ==> 0 <= rfind_char(s@, c) < s@.len() && s@[rfind_char(s@, c)]
                == c && (forall|k: int| rfind_char(s@, c) < k < s@.len() ==> s@[k] != c),
        decreases i,
    {
        if s.get_char(i - 1) == c {
            proof {
                assert(rfind_char(s@, c) == i - 1);
            }
            return Some(i - 1);
        }
        i = i - 1;
    }
    None
}

/// A name with a suffix slipped in before its first dot; a name without a
/// dot stays as it is.
pub open spec fn suffixed_name(s: Seq<char>, suffix: Seq<char>) -> Seq<char> {
    let i = find_char(s, '.');
    if i == -1 {
        s
    } else {
        s.subrange(0, i) + suffix + s.subrange(i, s.len() as int)
    }
}

/// Slips a suffix in before the first dot of a name.
pub fn insert_suffix(s: &str, suffix: &str) -> (r: String)
    ensures
        r@ == suffixed_name(s@, suffix@),
{
    let n = s.unicode_len();
    match find_char_str(s, '.') {
        Some(i) => {
            proof {
                lemma_find_char(s@, '.');
            }
            let mut out = String::from_str(s.substring_char(0, i));
            out.append(suffix);
            out.append(s.substring_char(i, n));
            out
        },
        None => String::from_str(s),
    }
}

/// The suffix slipped in before the first dot of the path's last
/// component; what stands before the last slash is kept as it is.
pub open spec fn suffixed_path(s: Seq<char>, suffix: Seq<char>) -> Seq<char> {
    let p = rfind_char(s, '/');
    s.subrange(0, p + 1) + suffixed_name(s.subrange(p + 1, s.len() as int), suffix)
}

/// Slips a suffix in before the first dot of a path's file name.
pub fn insert_suffix_path(s: &str, suffix: &str) -> (r: String)
    ensures
        r@ == suffixed_path(s@, suffix@),
{
    let n = s.unicode_len();
    proof {
        lemma_rfind_char(s@, '/');
    }
    let start: usize = match rfind_char_str(s, '/') {
        Some(p) => p + 1,
        None => 0,
    };
    let name = s.substring_char(start, n);
    let tail = insert_suffix(name, suffix);
    let mut out = String::from_str(s.substring_char(0, start));
    out.append(tail.as_str());
    out
}

/// Compares the pattern against the characters of `s` starting at `i`.
fn match_at(s: &str, pat: &str, i: usize) -> (r: bool)
    requires
        i + pat@.len() <= s@.len(),
        s@.len() <= usize::MAX,
    ensures
        r == matches_at(s@, pat@, i as int),
{
    let m = pat.unicode_len();
    let mut j: usize = 0;
    while j < m
        invariant
            0 <= j <= m,
            m == pat@.len(),
            i + m <= s@.len(),
            s@.len() <= usize::MAX,
            forall|k: int| 0 <= k < j ==> s@[i + k] == pat@[k],
        decreases m - j,
    {
        if s.get_char(i + j) != pat.get_char(j) {
            proof {
                assert(s@.subrange(i as int, i + m)[j as int] == s@[i + j]);
                assert(s@.subrange(i as int, i + m) != pat@);
            }
            return false;
        }
        j = j + 1;
    }
    proof {
        assert(s@.subrange(i as int, i + m) =~= pat@);
    }
    true
}

/// Naive substring search.
pub fn str_contains(s: &str, pat: &str) -> (r: bool)
    ensures
        r == contains_substring(s@, pat@),
{
    let n = s.unicode_len();
    let m = pat.unicode_len();
    if m > n {
        assert(forall|i: int| !matches_at(s@, pat@, i));
        return false;
    }
    if m == 0 {
        proof {
            assert(s@.subrange(0, 0) =~= pat@);
            assert(matches_at(s@, pat@, 0));
        }
        return true;
    }
    let mut i: usize = 0;
    while i <= n - m
        invariant
            0 <= i <= n - m + 1,
            1 <= m <= n,
            n == s@.len(),
            m == pat@.len(),
            forall|k: int| 0 <= k < i ==> !matches_at(s@, pat@, k),
        decreases n - i,
    {
        if match_at(s, pat, i) {
            return true;
        }
        i = i + 1;
    }
    proof {
        assert(forall|k: int| matches_at(s@, pat@, k) ==> 0 <= k <= n - m);
    }
    false
}

} // verus!
