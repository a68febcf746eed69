//! Verified text building: decimal renderings, padding, and lexicographic
//! comparison of strings.

use vstd::prelude::*;

verus! {

/// The character for one decimal digit.
pub open spec fn digit_char(d: int) -> char
    recommends
        0 <= d <= 9,
{
    if d == 0 {
        '0'
    } else if d == 1 {
        '1'
    } else if d == 2 {
        '2'
    } else if d == 3 {
        '3'
    } else if d == 4 {
        '4'
    } else if d == 5 {
        '5'
    } else if d == 6 {
        '6'
    } else if d == 7 {
        '7'
    } else if d == 8 {
        '8'
    } else {
        '9'
    }
}

/// The decimal rendering of a non-negative integer.
pub open spec fn nat_text(n: int) -> Seq<char>
    recommends
        n >= 0,
    decreases n,
{
    if n < 10 {
        seq![digit_char(n)]
    } else {
        nat_text(n / 10) + seq![digit_char(n % 10)]
    }
}

/// The decimal rendering of an integer, `-` first when negative.
pub open spec fn int_text(n: int) -> Seq<char> {
    if n < 0 {
        seq!['-'] + nat_text(-n)
    } else {
        nat_text(n)
    }
}

/// The decimal rendering padded with `0` to at least two digits.
pub open spec fn two_digit_text(n: int) -> Seq<char>
    recommends
        n >= 0,
{
    if n < 10 {
        seq!['0', digit_char(n)]
    } else {
        nat_text(n)
    }
}

/// `n` spaces.
pub open spec fn spaces(n: int) -> Seq<char>
    recommends
        n >= 0,
    decreases n,
{
    if n <= 0 {
        Seq::empty()
    } else {
        spaces(n - 1) + seq![' ']
    }
}

/// `piece` padded with spaces on the left to at least `width` characters.
pub open spec fn left_pad(piece: Seq<char>, width: int) -> Seq<char> {
    if piece.len() >= width {
        piece
    } else {
        spaces(width - piece.len()) + piece
    }
}

/// `piece` padded with spaces on the right to at least `width` characters.
pub open spec fn right_pad(piece: Seq<char>, width: int) -> Seq<char> {
    if piece.len() >= width {
        piece
    } else {
        piece + spaces(width - piece.len())
    }
}

/// One hundredth of `v`, rendered with exactly two decimal places.
pub open spec fn two_dec_text(v: int) -> Seq<char> {
    if v < 0 {
        seq!['-'] + two_dec_nat(-v)
    } else {
        two_dec_nat(v)
    }
}

/// One hundredth of a non-negative `v` with exactly two decimal places.
pub open spec fn two_dec_nat(v: int) -> Seq<char>
    recommends
        v >= 0,
{
    nat_text(v / 100) + seq!['.'] + seq![digit_char((v % 100) / 10), digit_char(v % 10)]
}

/// The string for one decimal digit.
fn digit_str(d: u64) -> (r: &'static str)
    requires
        d <= 9,
    ensures
        r@ == seq![digit_char(d as int)],
{
    proof {
        reveal_strlit("0");
        reveal_strlit("1");
        reveal_strlit("2");
        reveal_strlit("3");
        reveal_strlit("4");
        reveal_strlit("5");
        reveal_strlit("6");
        reveal_strlit("7");
        reveal_strlit("8");
        reveal_strlit("9");
    }
    let r = if d == 0 {
        "0"
    } else if d == 1 {
        "1"
    } else if d == 2 {
        "2"
    } else if d == 3 {
        "3"
    } else if d == 4 {
        "4"
    } else if d == 5 {
        "5"
    } else if d == 6 {
        "6"
    } else if d == 7 {
        "7"
    } else if d == 8 {
        "8"
    } else {
        "9"
    };
    proof {
        assert(r@ =~= seq![digit_char(d as int)]);
    }
    r
}

/// Append the decimal rendering of `n`.
pub fn push_nat(s: &mut String, n: u64)
    ensures
        final(s)@ == old(s)@ + nat_text(n as int),
    decreases n,
{
    if n < 10 {
        s.append(digit_str(n));
    } else {
        push_nat(s, n / 10);
        s.append(digit_str(n % 10));
        proof {
            assert(final(s)@ =~= old(s)@ + nat_text(n as int));
        }
    }
}

/// Append the decimal rendering of `n`, `-` first when negative.
pub fn push_int(s: &mut String, n: i64)
    ensures
        final(s)@ == old(s)@ + int_text(n as int),
{
    if n < 0 {
        s.append("-");
        // The magnitude, written to stay in bounds at `i64::MIN`.
        let m: u64 = (-(n + 1)) as u64 + 1;
        push_nat(s, m);
        proof {
            reveal_strlit("-");
            assert(final(s)@ =~= old(s)@ + int_text(n as int));
        }
    } else {
        push_nat(s, n as u64);
    }
}

/// Append the decimal rendering of `n`, zero-padded to at least two digits.
pub fn push_two_digit(s: &mut String, n: u64)
    ensures
        final(s)@ == old(s)@ + two_digit_text(n as int),
{
    if n < 10 {
        s.append(digit_str(0));
        s.append(digit_str(n));
        proof {
            assert(final(s)@ =~= old(s)@ + two_digit_text(n as int));
        }
    } else {
        push_nat(s, n);
    }
}

/// Append one hundredth of `v` with exactly two decimal places.
pub fn push_two_dec(s: &mut String, v: i64)
    ensures
        final(s)@ == old(s)@ + two_dec_text(v as int),
{
    let m: u64 = if v < 0 {
        s.append("-");
        (-(v + 1)) as u64 + 1
    } else {
        v as u64
    };
    push_nat(s, m / 100);
    s.append(".");
    s.append(digit_str((m % 100) / 10));
    s.append(digit_str(m % 10));
    proof {
        reveal_strlit("-");
        reveal_strlit(".");
        assert((m % 100) / 10 == ((m as int) % 100) / 10);
        assert(m as int % 10 == (m as int % 100) % 10);
        if v < 0 {
            assert(final(s)@ =~= old(s)@ + two_dec_text(v as int));
        } else {
            assert(final(s)@ =~= old(s)@ + two_dec_text(v as int));
        }
    }
}

/// Append `n` spaces.
pub fn push_spaces(s: &mut String, n: usize)
    ensures
        final(s)@ == old(s)@ + spaces(n as int),
    decreases n,
{
    if n > 0 {
        s.append(" ");
        proof {
            reveal_strlit(" ");
        }
        let ghost mid = s@;
        push_spaces(s, n - 1);
        proof {
            assert(spaces(0) =~= Seq::<char>::empty());
            assert(spaces(1) =~= seq![' ']);
            lemma_spaces_join(1, n as int - 1);
            assert(final(s)@ =~= old(s)@ + spaces(n as int));
        }
    }
}

/// Spaces concatenate: `spaces(a) + spaces(b) == spaces(a + b)`.
proof fn lemma_spaces_join(a: int, b: int)
    requires
        a >= 0,
        b >= 0,
    ensures
        spaces(a) + spaces(b) =~= spaces(a + b),
    decreases b,
{
    if b == 0 {
        assert(spaces(a) + spaces(0) =~= spaces(a));
    } else {
        lemma_spaces_join(a, b - 1);
        assert(spaces(a) + spaces(b) =~= (spaces(a) + spaces(b - 1)) + seq![' ']);
    }
}

/// Append `piece` padded with spaces on the left to at least `width`.
pub fn push_left_pad(s: &mut String, piece: &str, width: usize)
    ensures
        final(s)@ == old(s)@ + left_pad(piece@, width as int),
{
    let len = piece.unicode_len();
    if len < width {
        push_spaces(s, width - len);
        s.append(piece);
        proof {
            assert(final(s)@ =~= old(s)@ + left_pad(piece@, width as int));
        }
    } else {
        s.append(piece);
    }
}

/// Append `piece` padded with spaces on the right to at least `width`.
pub fn push_right_pad(s: &mut String, piece: &str, width: usize)
    ensures
        final(s)@ == old(s)@ + right_pad(piece@, width as int),
{
    s.append(piece);
    let len = piece.unicode_len();
    if len < width {
        push_spaces(s, width - len);
        proof {
            assert(final(s)@ =~= old(s)@ + right_pad(piece@, width as int));
        }
    }
}

/// Strict lexicographic order on character sequences, by code point.
pub open spec fn chars_lt(a: Seq<char>, b: Seq<char>) -> bool
    decreases a.len(),
{
    if b.len() == 0 {
        false
    } else if a.len() == 0 {
        true
    } else if a[0] != b[0] {
        (a[0] as u32) < (b[0] as u32)
    } else {
        chars_lt(a.skip(1), b.skip(1))
    }
}

/// Whether `a` is lexicographically before `b`, by code point.
pub fn str_lt(a: &str, b: &str) -> (r: bool)
    ensures
        r == chars_lt(a@, b@),
{
    let a_len = a.unicode_len();
    let b_len = b.unicode_len();
    let mut i: usize = 0;
    proof {
        assert(a@.skip(0) =~= a@);
        assert(b@.skip(0) =~= b@);
    }
    loop
        invariant
            i <= a_len,
            i <= b_len,
            a_len == a@.len(),
            b_len == b@.len(),
            chars_lt(a@, b@) == chars_lt(a@.skip(i as int), b@.skip(i as int)),
        decreases a_len - i,
    {
        if i == b_len {
            return false;
        }
        if i == a_len {
            return true;
        }
        let ca = a.get_char(i);
        let cb = b.get_char(i);
        if ca != cb {
            return (ca as u32) < (cb as u32);
        }
        proof {
            lemma_chars_lt_step(a@.skip(i as int), b@.skip(i as int));
            assert(a@.skip(i as int).skip(1) =~= a@.skip(i as int + 1));
            assert(b@.skip(i as int).skip(1) =~= b@.skip(i as int + 1));
        }
        i += 1;
    }
}

/// Unfolding step for `chars_lt` on sequences with equal heads.
proof fn lemma_chars_lt_step(a: Seq<char>, b: Seq<char>)
    requires
        a.len() > 0,
        b.len() > 0,
        a[0] == b[0],
    ensures
        chars_lt(a, b) == chars_lt(a.skip(1), b.skip(1)),
{
}

/// Lexicographic order on character sequences is transitive.
pub proof fn lemma_chars_lt_trans(a: Seq<char>, b: Seq<char>, c: Seq<char>)
    requires
        chars_lt(a, b),
        chars_lt(b, c),
    ensures
        chars_lt(a, c),
    decreases a.len() + b.len() + c.len(),
{
    if a.len() == 0 {
        // `chars_lt(b, c)` already forces `c` to be non-empty.
    } else {
        // b and c are nonempty here.
        if a[0] == b[0] {
            if b[0] == c[0] {
                lemma_chars_lt_trans(a.skip(1), b.skip(1), c.skip(1));
            }
        } else {
            if b[0] == c[0] {
            } else {
                if a[0] == c[0] {
                }
            }
        }
    }
}

/// Two sequences neither of which is lexicographically before the other
/// are equal.
pub proof fn lemma_chars_connected(a: Seq<char>, b: Seq<char>)
    requires
        !chars_lt(a, b),
        !chars_lt(b, a),
    ensures
        a == b,
    decreases a.len(),
{
    if a.len() == 0 || b.len() == 0 {
        assert(a =~= b);
    } else if a[0] == b[0] {
        lemma_chars_connected(a.skip(1), b.skip(1));
        assert(a =~= b) by {
            assert(a.skip(1) =~= b.skip(1));
            assert(a.len() == b.len());
            assert forall|i: int| 0 <= i < a.len() implies a[i] == b[i] by {
                if i >= 1 {
                    assert(a[i] == a.skip(1)[i - 1]);
                    assert(b[i] == b.skip(1)[i - 1]);
                }
            }
        }
    } else {
        assert(a[0] as u32 == b[0] as u32);
        vstd::utf8::char_u32_cast(a[0], a[0] as u32);
        vstd::utf8::char_u32_cast(b[0], b[0] as u32);
        assert(a[0] == b[0]);
    }
}

/// Nothing is lexicographically before itself.
pub proof fn lemma_chars_lt_irrefl(a: Seq<char>)
    ensures
        !chars_lt(a, a),
    decreases a.len(),
{
    if a.len() > 0 {
        lemma_chars_lt_irrefl(a.skip(1));
    }
}

/// Lexicographic order is asymmetric.
pub proof fn lemma_chars_lt_asym(a: Seq<char>, b: Seq<char>)
    requires
        chars_lt(a, b),
    ensures
        !chars_lt(b, a),
    decreases a.len(),
{
    if a.len() > 0 && b.len() > 0 && a[0] == b[0] {
        lemma_chars_lt_asym(a.skip(1), b.skip(1));
    }
}

/// Whether `a` and `b` hold the same characters.
pub fn str_eq(a: &str, b: &str) -> (r: bool)
    ensures
        r == (a@ == b@),
{
    let a_len = a.unicode_len();
    let b_len = b.unicode_len();
    if a_len != b_len {
        return false;
    }
    let mut i: usize = 0;
    loop
        invariant
            i <= a_len,
            a_len == a@.len(),
            b_len == b@.len(),
            a_len == b_len,
            forall|j: int| 0 <= j < i ==> a@[j] == b@[j],
        decreases a_len - i,
    {
        if i == a_len {
            proof {
                assert(a@ =~= b@);
            }
            return true;
        }
        if a.get_char(i) != b.get_char(i) {
            return false;
        }
        i += 1;
    }
}

} // verus!
