//! Character-level helpers shared by the path, naming and timestamp logic:
//! decimal and hexadecimal numerals, lexicographic order and searches.

use vstd::prelude::*;
use crate::arith::lemma_char_injective;

verus! {

/// The decimal digit character for a value in `0..10`.
pub open spec fn digit_char(d: int) -> char {
    if d == 0 {
        '0'
    } else if d == 1 {
        '1'
    } else if d == 2 {
        '2'
    } else if d == 3 {
        '3'
    } else if d == 4 {
        '4'
    } else if d == 5 {
        '5'
    } else if d == 6 {
        '6'
    } else if d == 7 {
        '7'
    } else if d == 8 {
        '8'
    } else {
        '9'
    }
}

/// The lowercase hexadecimal digit character for a value in `0..16`.
pub open spec fn hex_char(d: int) -> char {
    if d < 10 {
        digit_char(d)
    } else if d == 10 {
        'a'
    } else if d == 11 {
        'b'
    } else if d == 12 {
        'c'
    } else if d == 13 {
        'd'
    } else if d == 14 {
        'e'
    } else {
        'f'
    }
}

/// The decimal numeral of `n`, most significant digit first, no leading zeros.
pub open spec fn spec_dec_digits(n: int) -> Seq<char>
    decreases n,
{
    if n < 10 {
        seq![digit_char(n)]
    } else {
        spec_dec_digits(n / 10) + seq![digit_char(n % 10)]
    }
}

/// Lowercase hexadecimal encoding of a byte string, two digits per byte.
pub open spec fn hex_of(b: Seq<u8>) -> Seq<char>
    decreases b.len(),
{
    if b.len() == 0 {
        Seq::empty()
    } else {
        hex_of(b.drop_last()) + seq![
            hex_char(b.last() as int / 16),
            hex_char(b.last() as int % 16),
        ]
    }
}

pub(crate) fn digit_str(d: u8) -> (r: &'static str)
    requires
        d < 10,
    ensures
        r@ == seq![digit_char(d as int)],
{
    let r = match d {
        0 => "0",
        1 => "1",
        2 => "2",
        3 => "3",
        4 => "4",
        5 => "5",
        6 => "6",
        7 => "7",
        8 => "8",
        _ => "9",
    };
    proof {
        reveal_strlit("0");
        reveal_strlit("1");
        reveal_strlit("2");
        reveal_strlit("3");
        reveal_strlit("4");
        reveal_strlit("5");
        reveal_strlit("6");
        reveal_strlit("7");
        reveal_strlit("8");
        reveal_strlit("9");
        assert(r@ =~= seq![digit_char(d as int)]);
    }
    r
}

fn hex_char_str(d: u8) -> (r: &'static str)
    requires
        d < 16,
    ensures
        r@ == seq![hex_char(d as int)],
{
    if d < 10 {
        digit_str(d)
    } else {
        let r = match d {
            10 => "a",
            11 => "b",
            12 => "c",
            13 => "d",
            14 => "e",
            _ => "f",
        };
        proof {
            reveal_strlit("a");
            reveal_strlit("b");
            reveal_strlit("c");
            reveal_strlit("d");
            reveal_strlit("e");
            reveal_strlit("f");
            assert(r@ =~= seq![hex_char(d as int)]);
        }
        r
    }
}

/// Appends the decimal numeral of `n` to `s`.
pub fn push_dec_u64(s: &mut String, n: u64)
    ensures
        final(s)@ == old(s)@ + spec_dec_digits(n as int),
    decreases n,
{
    if n < 10 {
        s.append(digit_str(n as u8));
    } else {
        push_dec_u64(s, n / 10);
        s.append(digit_str((n % 10) as u8));
        proof {
            assert(old(s)@ + spec_dec_digits(n as int / 10) + seq![
                digit_char(n as int % 10),
            ] =~= old(s)@ + spec_dec_digits(n as int));
        }
    }
}

/// Strict lexicographic order on character sequences, by code point.
pub open spec fn lex_lt(a: Seq<char>, b: Seq<char>) -> bool
    decreases a.len(),
{
    if b.len() == 0 {
        false
    } else if a.len() == 0 {
        true
    } else if (a[0] as u32) < (b[0] as u32) {
        true
    } else if a[0] == b[0] {
        lex_lt(a.skip(1), b.skip(1))
    } else {
        false
    }
}

/// The lexicographic order is irreflexive.
pub proof fn lemma_lex_irrefl(a: Seq<char>)
    ensures
        !lex_lt(a, a),
    decreases a.len(),
{
    if a.len() > 0 {
        lemma_lex_irrefl(a.skip(1));
    }
}

/// The lexicographic order is total: distinct strings compare one way.
pub proof fn lemma_lex_total(a: Seq<char>, b: Seq<char>)
    ensures
        a == b || lex_lt(a, b) || lex_lt(b, a),
    decreases a.len(),
{
    if a.len() == 0 && b.len() == 0 {
        assert(a =~= b);
    } else if a.len() > 0 && b.len() > 0 && a[0] == b[0] {
        assert(a.skip(1).len() == a.len() - 1);
        assert(b.skip(1).len() == b.len() - 1);
        lemma_lex_total(a.skip(1), b.skip(1));
        if a.skip(1) == b.skip(1) {
            assert(a.len() == b.len());
            assert forall|i: int| 0 <= i < a.len() implies a[i] == b[i] by {
                if i >= 1 {
                    assert(a[i] == a.skip(1)[i - 1]);
                    assert(b[i] == b.skip(1)[i - 1]);
                }
            }
            assert(a =~= b);
        }
    } else if a.len() == 0 {
        assert(lex_lt(a, b));
    } else if b.len() == 0 {
        assert(lex_lt(b, a));
    } else if (a[0] as u32) < (b[0] as u32) {
        assert(lex_lt(a, b));
    } else {
        assert(a[0] != b[0]);
        if (a[0] as u32) == (b[0] as u32) {
            lemma_char_injective(a[0], b[0]);
            assert(false);
        }
        assert((b[0] as u32) < (a[0] as u32));
        assert(lex_lt(b, a));
    }
}

/// The lexicographic order is transitive.
pub proof fn lemma_lex_trans(a: Seq<char>, b: Seq<char>, c: Seq<char>)
    requires
        lex_lt(a, b),
        lex_lt(b, c),
    ensures
        lex_lt(a, c),
    decreases a.len(),
{
    if a.len() > 0 && b.len() > 0 && c.len() > 0 && a[0] == b[0] && b[0] == c[0] {
        lemma_lex_trans(a.skip(1), b.skip(1), c.skip(1));
    }
}

/// Index of the last occurrence of `c` in `s`, if any.
pub open spec fn spec_rfind(s: Seq<char>, c: char) -> Option<int>
    decreases s.len(),
{
    if s.len() == 0 {
        None
    } else if s.last() == c {
        Some(s.len() - 1)
    } else {
        spec_rfind(s.drop_last(), c)
    }
}

/// What `spec_rfind` returns: the index of the last occurrence, in range.
pub proof fn lemma_rfind_bounds(s: Seq<char>, c: char)
    ensures
        match spec_rfind(s, c) {
            Some(i) => 0 <= i < s.len() && s[i] == c && (forall|j: int|
                i < j < s.len() ==> s[j] != c),
            None => forall|j: int| 0 <= j < s.len() ==> s[j] != c,
        },
    decreases s.len(),
{
    if s.len() > 0 && s.last() != c {
        lemma_rfind_bounds(s.drop_last(), c);
        assert(forall|j: int| 0 <= j < s.len() - 1 ==> s.drop_last()[j] == s[j]);
    }
}

/// The hex encoding is two characters per byte.
pub proof fn lemma_hex_len(b: Seq<u8>)
    ensures
        hex_of(b).len() == 2 * b.len(),
    decreases b.len(),
{
    if b.len() > 0 {
        lemma_hex_len(b.drop_last());
    }
}

/// Hex digits are never a path separator or a dot.
pub proof fn lemma_hex_chars(b: Seq<u8>)
    ensures
        forall|i: int|
            0 <= i < hex_of(b).len() ==> #[trigger] hex_of(b)[i] != '/' && hex_of(b)[i]
                != '.',
    decreases b.len(),
{
    if b.len() > 0 {
        lemma_hex_chars(b.drop_last());
        let h = hex_of(b);
        let rest = hex_of(b.drop_last());
        assert forall|i: int|
            0 <= i < h.len() implies #[trigger] h[i] != '/' && h[i] != '.' by {
            if i < rest.len() {
                assert(h[i] == rest[i]);
            }
        }
    }
}

/// Decimal digits are never a path separator.
pub proof fn lemma_dec_digits_clean(n: int)
    ensures
        forall|i: int|
            0 <= i < spec_dec_digits(n).len() ==> #[trigger] spec_dec_digits(n)[i]
                != '/',
    decreases n,
{
    if n >= 10 {
        lemma_dec_digits_clean(n / 10);
        let d = spec_dec_digits(n);
        let rest = spec_dec_digits(n / 10);
        assert forall|i: int| 0 <= i < d.len() implies #[trigger] d[i] != '/' by {
            if i < rest.len() {
                assert(d[i] == rest[i]);
            }
        }
    }
}

/// When `c` stands at `k` and nowhere later, that is where the search ends.
pub proof fn lemma_rfind_exact(s: Seq<char>, c: char, k: int)
    requires
        0 <= k < s.len(),
        s[k] == c,
        forall|j: int| k < j < s.len() ==> s[j] != c,
    ensures
        spec_rfind(s, c) == Some(k),
    decreases s.len(),
{
    if k < s.len() - 1 {
        assert(forall|j: int|
            k < j < s.len() - 1 ==> s.drop_last()[j] == s[j]);
        lemma_rfind_exact(s.drop_last(), c, k);
    }
}

/// Compares two strings in the lexicographic order of their code points.
pub fn str_lex_lt(a: &str, b: &str) -> (r: bool)
    ensures
        r == lex_lt(a@, b@),
{
    let a_len = a.unicode_len();
    let b_len = b.unicode_len();
    let mut i: usize = 0;
    proof {
        assert(a@.skip(0) =~= a@);
        assert(b@.skip(0) =~= b@);
    }
    loop
        invariant
            i <= a_len,
            i <= b_len,
            a_len == a@.len(),
            b_len == b@.len(),
            lex_lt(a@, b@) == lex_lt(a@.skip(i as int), b@.skip(i as int)),
        decreases a_len - i,
    {
        if i == b_len {
            return false;
        }
        if i == a_len {
            return true;
        }
        let ca = a.get_char(i);
        let cb = b.get_char(i);
        if (ca as u32) < (cb as u32) {
            return true;
        }
        if ca != cb {
            return false;
        }
        proof {
            assert(a@.skip(i as int).skip(1) =~= a@.skip(i + 1));
            assert(b@.skip(i as int).skip(1) =~= b@.skip(i + 1));
        }
        i += 1;
    }
}

/// Finds the last occurrence of `c` in `s`.
pub fn rfind_char(s: &str, c: char) -> (r: Option<usize>)
    ensures
        match r {
            Some(i) => Some(i as int) == spec_rfind(s@, c),
            None => spec_rfind(s@, c) is None,
        },
{
    let mut i = s.unicode_len();
    proof {
        assert(s@.subrange(0, s@.len() as int) =~= s@);
    }
    loop
        invariant
            i <= s@.len(),
            spec_rfind(s@, c) == spec_rfind(s@.subrange(0, i as int), c),
        decreases i,
    {
        if i == 0 {
            return None;
        }
        let ch = s.get_char(i - 1);
        proof {
            let pre = s@.subrange(0, i as int);
            assert(pre.last() == s@[i - 1]);
            assert(pre.drop_last() =~= s@.subrange(0, i - 1));
        }
        if ch == c {
            return Some(i - 1);
        }
        i -= 1;
    }
}

/// Whether `s` ends with `suffix`, character for character.
pub fn ends_with(s: &str, suffix: &str) -> (r: bool)
    ensures
        r == (s@.len() >= suffix@.len() && s@.skip(s@.len() - suffix@.len())
            == suffix@),
{
    let s_len = s.unicode_len();
    let n = suffix.unicode_len();
    if s_len < n {
        return false;
    }
    let mut i: usize = 0;
    while i < n
        invariant
            i <= n,
            n <= s_len,
            s_len == s@.len(),
            n == suffix@.len(),
            forall|j: int|
                0 <= j < i ==> s@[s@.len() - n + j] == suffix@[j],
        decreases n - i,
    {
        if s.get_char(s_len - n + i) != suffix.get_char(i) {
            proof {
                let tail = s@.skip(s@.len() - n);
                assert(tail[i as int] == s@[s@.len() - n + i]);
            }
            return false;
        }
        i += 1;
    }
    proof {
        assert(s@.skip(s@.len() - n) =~= suffix@);
    }
    true
}

/// Whether `a` and `b` name the same character up to ASCII case.
pub open spec fn char_eq_nocase(a: char, b: char) -> bool {
    ||| a == b
    ||| ((a as u32) + 32 == (b as u32) && 97 <= (b as u32) <= 122)
    ||| ((b as u32) + 32 == (a as u32) && 97 <= (a as u32) <= 122)
}

/// Whether the strings match character for character up to ASCII case.
pub open spec fn eq_nocase(a: Seq<char>, b: Seq<char>) -> bool {
    a.len() == b.len() && forall|i: int| 0 <= i < a.len() ==> char_eq_nocase(a[i], b[i])
}

/// Compares two strings ignoring ASCII case.
pub fn str_eq_nocase(a: &str, b: &str) -> (r: bool)
    ensures
        r == eq_nocase(a@, b@),
{
    let a_len = a.unicode_len();
    let b_len = b.unicode_len();
    if a_len != b_len {
        return false;
    }
    let mut i: usize = 0;
    while i < a_len
        invariant
            i <= a_len,
            a_len == a@.len(),
            a_len == b@.len(),
            forall|j: int| 0 <= j < i ==> char_eq_nocase(a@[j], b@[j]),
        decreases a_len - i,
    {
        let ca = a.get_char(i) as u32;
        let cb = b.get_char(i) as u32;
        let same = ca == cb || (ca + 32 == cb && 97 <= cb && cb <= 122) || (cb + 32
            == ca && 97 <= ca && ca <= 122);
        if !same {
            return false;
        }
        i += 1;
    }
    true
}

/// Lowercase hexadecimal encoding of a byte slice.
pub fn bytes_to_hex(b: &[u8]) -> (r: String)
    ensures
        r@ == hex_of(b@),
{
    let mut s = String::new();
    let mut i: usize = 0;
    proof {
        assert(b@.subrange(0, 0) =~= Seq::<u8>::empty());
    }
    while i < b.len()
        invariant
            i <= b@.len(),
            s@ == hex_of(b@.subrange(0, i as int)),
        decreases b@.len() - i,
    {
        let byte = b[i];
        s.append(hex_char_str(byte / 16));
        s.append(hex_char_str(byte % 16));
        proof {
            let pre = b@.subrange(0, i + 1);
            assert(pre.drop_last() =~= b@.subrange(0, i as int));
            assert(pre.last() == b@[i as int]);
        }
        i += 1;
    }
    proof {
        assert(b@.subrange(0, b@.len() as int) =~= b@);
    }
    s
}

} // verus!
