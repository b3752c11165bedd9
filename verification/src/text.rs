//! Character and string primitives: whitespace classification, codepoint
//! lexicographic comparison, and decimal rendering of numbers.

use vstd::prelude::*;
use vstd::string::StrSliceExecFns;
use vstd::string::StringExecFns;

verus! {

/// Whitespace, following Unicode's White_Space property (the set that
/// `char::is_whitespace` recognizes).
pub open spec fn is_space_char(c: char) -> bool {
    ||| c == ' '
    ||| c == '\t'
    ||| c == '\n'
    ||| c == '\u{0b}'
    ||| c == '\u{0c}'
    ||| c == '\r'
    ||| c == '\u{85}'
    ||| c == '\u{a0}'
    ||| c == '\u{1680}'
    ||| c == '\u{2000}'
    ||| c == '\u{2001}'
    ||| c == '\u{2002}'
    ||| c == '\u{2003}'
    ||| c == '\u{2004}'
    ||| c == '\u{2005}'
    ||| c == '\u{2006}'
    ||| c == '\u{2007}'
    ||| c == '\u{2008}'
    ||| c == '\u{2009}'
    ||| c == '\u{200a}'
    ||| c == '\u{2028}'
    ||| c == '\u{2029}'
    ||| c == '\u{202f}'
    ||| c == '\u{205f}'
    ||| c == '\u{3000}'
}

/// A string is blank when every character is whitespace; in particular the
/// empty string is blank.
pub open spec fn is_blank(s: Seq<char>) -> bool {
    forall|i: int| 0 <= i < s.len() ==> is_space_char(#[trigger] s[i])
}

pub fn is_space(c: char) -> (r: bool)
    ensures
        r == is_space_char(c),
{
    c == ' ' || c == '\t' || c == '\n' || c == '\u{0b}' || c == '\u{0c}' || c == '\r'
        || c == '\u{85}' || c == '\u{a0}' || c == '\u{1680}' || c == '\u{2000}' || c == '\u{2001}'
        || c == '\u{2002}' || c == '\u{2003}' || c == '\u{2004}' || c == '\u{2005}'
        || c == '\u{2006}' || c == '\u{2007}' || c == '\u{2008}' || c == '\u{2009}'
        || c == '\u{200a}' || c == '\u{2028}' || c == '\u{2029}' || c == '\u{202f}'
        || c == '\u{205f}' || c == '\u{3000}'
}

pub fn str_is_blank(s: &str) -> (r: bool)
    ensures
        r == is_blank(s@),
{
    let n = s.unicode_len();
    let mut i: usize = 0;
    while i < n
        invariant
            0 <= i <= n,
            n == s@.len(),
            forall|j: int| 0 <= j < i ==> is_space_char(#[trigger] s@[j]),
        decreases n - i,
    {
        if !is_space(s.get_char(i)) {
            return false;
        }
        i = i + 1;
    }
    true
}

/// Three-way comparison of character sequences in codepoint order:
/// negative when `a` sorts first, positive when `b` does, zero on equality.
pub open spec fn str_cmp(a: Seq<char>, b: Seq<char>) -> int
    decreases a.len(),
{
    if a.len() == 0 && b.len() == 0 {
        0
    } else if a.len() == 0 {
        -1
    } else if b.len() == 0 {
        1
    } else if (a[0] as u32) < (b[0] as u32) {
        -1
    } else if (b[0] as u32) < (a[0] as u32) {
        1
    } else {
        str_cmp(a.drop_first(), b.drop_first())
    }
}

/// Two characters with the same codepoint are the same character.
pub proof fn lemma_char_eq(a: char, b: char)
    requires
        a as u32 == b as u32,
    ensures
        a == b,
{
}

pub proof fn lemma_str_cmp_range(a: Seq<char>, b: Seq<char>)
    ensures
        str_cmp(a, b) == -1 || str_cmp(a, b) == 0 || str_cmp(a, b) == 1,
    decreases a.len(),
{
    if a.len() != 0 && b.len() != 0 {
        lemma_str_cmp_range(a.drop_first(), b.drop_first());
    }
}

/// Comparison is zero exactly on equal sequences.
pub proof fn lemma_str_cmp_eq(a: Seq<char>, b: Seq<char>)
    ensures
        str_cmp(a, b) == 0 <==> a == b,
    decreases a.len(),
{
    if a.len() == 0 && b.len() == 0 {
        assert(a =~= b);
    } else if a.len() != 0 && b.len() != 0 && !((a[0] as u32) < (b[0] as u32)) && !((b[0]
        as u32) < (a[0] as u32)) {
        lemma_char_eq(a[0], b[0]);
        lemma_str_cmp_eq(a.drop_first(), b.drop_first());
        if str_cmp(a, b) == 0 {
            assert(a =~= seq![a[0]] + a.drop_first());
            assert(b =~= seq![b[0]] + b.drop_first());
        }
        if a == b {
            assert(a.drop_first() =~= b.drop_first());
        }
    } else {
        if a == b {
            assert(a.len() == b.len());
            if a.len() != 0 {
                assert(a[0] == b[0]);
            }
        }
    }
}

/// Swapping the arguments negates the comparison.
pub proof fn lemma_str_cmp_antisym(a: Seq<char>, b: Seq<char>)
    ensures
        str_cmp(a, b) == -str_cmp(b, a),
    decreases a.len(),
{
    if a.len() != 0 && b.len() != 0 {
        lemma_str_cmp_antisym(a.drop_first(), b.drop_first());
    }
}

/// Transitivity of the (non-strict) codepoint order; the order is strict as
/// soon as one of the two steps is.
pub proof fn lemma_str_cmp_trans(a: Seq<char>, b: Seq<char>, c: Seq<char>)
    requires
        str_cmp(a, b) <= 0,
        str_cmp(b, c) <= 0,
    ensures
        str_cmp(a, c) <= 0,
        str_cmp(a, b) < 0 || str_cmp(b, c) < 0 ==> str_cmp(a, c) < 0,
    decreases a.len() + b.len() + c.len(),
{
    lemma_str_cmp_eq(a, b);
    lemma_str_cmp_eq(b, c);
    lemma_str_cmp_eq(a, c);
    if a == b || b == c {
        // equality cases are immediate
    } else if a.len() == 0 {
        // str_cmp(a, c) is 0 or -1
        lemma_str_cmp_range(a, c);
        assert(b.len() != 0);
        if c.len() == 0 {
            assert(str_cmp(b, c) == 1);
        }
    } else {
        // a != b with a nonempty forces b nonempty, and then b != c forces c nonempty
        assert(b.len() != 0);
        assert(c.len() != 0);
        if !((a[0] as u32) < (b[0] as u32)) && !((b[0] as u32) < (a[0] as u32)) && !((b[0]
            as u32) < (c[0] as u32)) && !((c[0] as u32) < (b[0] as u32)) {
            lemma_char_eq(a[0], b[0]);
            lemma_char_eq(b[0], c[0]);
            lemma_str_cmp_trans(a.drop_first(), b.drop_first(), c.drop_first());
        }
    }
}

pub fn str_compare(a: &str, b: &str) -> (r: i8)
    ensures
        r as int == str_cmp(a@, b@),
{
    let alen = a.unicode_len();
    let blen = b.unicode_len();
    let mut i: usize = 0;
    proof {
        assert(a@.skip(0) =~= a@);
        assert(b@.skip(0) =~= b@);
    }
    loop
        invariant
            0 <= i <= alen,
            0 <= i <= blen,
            alen == a@.len(),
            blen == b@.len(),
            str_cmp(a@, b@) == str_cmp(a@.skip(i as int), b@.skip(i as int)),
        decreases alen - i,
    {
        if i >= alen || i >= blen {
            if alen == blen {
                return 0;
            } else if alen < blen {
                assert(a@.skip(i as int).len() == 0 && b@.skip(i as int).len() != 0);
                return -1;
            } else {
                assert(b@.skip(i as int).len() == 0 && a@.skip(i as int).len() != 0);
                return 1;
            }
        }
        let ca = a.get_char(i);
        let cb = b.get_char(i);
        assert(a@.skip(i as int)[0] == ca && b@.skip(i as int)[0] == cb);
        if (ca as u32) < (cb as u32) {
            return -1;
        }
        if (cb as u32) < (ca as u32) {
            return 1;
        }
        assert(a@.skip(i as int).drop_first() =~= a@.skip(i + 1));
        assert(b@.skip(i as int).drop_first() =~= b@.skip(i + 1));
        i = i + 1;
    }
}

pub fn str_equal(a: &str, b: &str) -> (r: bool)
    ensures
        r == (a@ == b@),
{
    let c = str_compare(a, b);
    proof {
        lemma_str_cmp_eq(a@, b@);
    }
    c == 0
}

/// The decimal digits of `n`, most significant first.
pub open spec fn dec_of(n: int) -> Seq<char>
    decreases n,
{
    if n <= 9 {
        seq![dec_digit(n)]
    } else {
        dec_of(n / 10).push(dec_digit(n % 10))
    }
}

pub open spec fn dec_digit(d: int) -> char {
    if d == 0 {
        '0'
    } else if d == 1 {
        '1'
    } else if d == 2 {
        '2'
    } else if d == 3 {
        '3'
    } else if d == 4 {
        '4'
    } else if d == 5 {
        '5'
    } else if d == 6 {
        '6'
    } else if d == 7 {
        '7'
    } else if d == 8 {
        '8'
    } else {
        '9'
    }
}

fn push_digit(s: &mut String, d: usize)
    requires
        d < 10,
    ensures
        final(s)@ == old(s)@.push(dec_digit(d as int)),
{
    if d == 0 {
        s.append("0");
        proof {
            reveal_strlit("0");
            assert(final(s)@ =~= old(s)@.push('0'));
        }
    } else if d == 1 {
        s.append("1");
        proof {
            reveal_strlit("1");
            assert(final(s)@ =~= old(s)@.push('1'));
        }
    } else if d == 2 {
        s.append("2");
        proof {
            reveal_strlit("2");
            assert(final(s)@ =~= old(s)@.push('2'));
        }
    } else if d == 3 {
        s.append("3");
        proof {
            reveal_strlit("3");
            assert(final(s)@ =~= old(s)@.push('3'));
        }
    } else if d == 4 {
        s.append("4");
        proof {
            reveal_strlit("4");
            assert(final(s)@ =~= old(s)@.push('4'));
        }
    } else if d == 5 {
        s.append("5");
        proof {
            reveal_strlit("5");
            assert(final(s)@ =~= old(s)@.push('5'));
        }
    } else if d == 6 {
        s.append("6");
        proof {
            reveal_strlit("6");
            assert(final(s)@ =~= old(s)@.push('6'));
        }
    } else if d == 7 {
        s.append("7");
        proof {
            reveal_strlit("7");
            assert(final(s)@ =~= old(s)@.push('7'));
        }
    } else if d == 8 {
        s.append("8");
        proof {
            reveal_strlit("8");
            assert(final(s)@ =~= old(s)@.push('8'));
        }
    } else {
        s.append("9");
        proof {
            reveal_strlit("9");
            assert(final(s)@ =~= old(s)@.push('9'));
        }
    }
}

/// Appends the decimal rendering of `n` to `s`.
pub fn append_dec(s: &mut String, n: usize)
    ensures
        final(s)@ == old(s)@ + dec_of(n as int),
    decreases n,
{
    if n >= 10 {
        append_dec(s, n / 10);
        push_digit(s, n % 10);
        assert(final(s)@ =~= old(s)@ + dec_of(n as int));
    } else {
        push_digit(s, n);
        assert(final(s)@ =~= old(s)@ + dec_of(n as int));
    }
}

} // verus!
