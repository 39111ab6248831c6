//! Variable names: decimal suffixes, fresh-name candidates, and the
//! base/number split used by the canonicalizer.

use vstd::prelude::*;

use crate::text::push_char;

verus! {

/// The decimal digit characters, by value.
pub open spec fn digit_char(d: nat) -> char {
    if d == 0 {
        '0'
    } else if d == 1 {
        '1'
    } else if d == 2 {
        '2'
    } else if d == 3 {
        '3'
    } else if d == 4 {
        '4'
    } else if d == 5 {
        '5'
    } else if d == 6 {
        '6'
    } else if d == 7 {
        '7'
    } else if d == 8 {
        '8'
    } else {
        '9'
    }
}

/// The value of a decimal digit character; ten for any other character.
pub open spec fn digit_val(c: char) -> nat {
    if c == '0' {
        0
    } else if c == '1' {
        1
    } else if c == '2' {
        2
    } else if c == '3' {
        3
    } else if c == '4' {
        4
    } else if c == '5' {
        5
    } else if c == '6' {
        6
    } else if c == '7' {
        7
    } else if c == '8' {
        8
    } else if c == '9' {
        9
    } else {
        10
    }
}

/// True iff `c` is an ASCII decimal digit.
pub open spec fn is_digit_char(c: char) -> bool {
    digit_val(c) < 10
}

/// The decimal rendering of `n`, most significant digit first, without
/// leading zeros (a single `'0'` for zero).
pub open spec fn digits_of(n: nat) -> Seq<char>
    decreases n,
{
    if n < 10 {
        seq![digit_char(n)]
    } else {
        digits_of(n / 10).push(digit_char(n % 10))
    }
}

/// The numeric value of a sequence of decimal digit characters.
pub open spec fn val_of(s: Seq<char>) -> nat
    decreases s.len(),
{
    if s.len() == 0 {
        0
    } else {
        val_of(s.drop_last()) * 10 + digit_val(s.last())
    }
}

/// Rendering a number and reading it back gives the number itself.
pub proof fn lemma_val_of_digits(n: nat)
    ensures
        val_of(digits_of(n)) == n,
        digits_of(n).len() >= 1,
        forall|i: int| 0 <= i < digits_of(n).len() ==> is_digit_char(#[trigger] digits_of(n)[i]),
    decreases n,
{
    if n < 10 {
        assert(digits_of(n).drop_last() =~= Seq::<char>::empty());
        assert(val_of(Seq::<char>::empty()) == 0);
    } else {
        lemma_val_of_digits(n / 10);
        vstd::arithmetic::div_mod::lemma_fundamental_div_mod(n as int, 10);
        assert(digits_of(n).drop_last() =~= digits_of(n / 10));
    }
}

/// Candidate fresh names derived from a hint: the hint itself, then the hint
/// with `_1`, `_2`, ... appended.
pub open spec fn cand(hint: Seq<char>, k: nat) -> Seq<char> {
    if k == 0 {
        hint
    } else {
        hint + seq!['_'] + digits_of(k)
    }
}

/// Distinct indices give distinct candidate names.
pub proof fn lemma_cand_injective(hint: Seq<char>, j: nat, k: nat)
    requires
        j != k,
    ensures
        cand(hint, j) != cand(hint, k),
{
    lemma_val_of_digits(j);
    lemma_val_of_digits(k);
    if j == 0 || k == 0 {
        // one candidate is the hint itself, the other is strictly longer
        assert(cand(hint, j).len() != cand(hint, k).len());
    } else {
        if cand(hint, j) == cand(hint, k) {
            assert(digits_of(j) =~= digits_of(k)) by {
                let a = cand(hint, j);
                let n = hint.len() + 1;
                assert(digits_of(j).len() == a.len() - n);
                assert(digits_of(k).len() == a.len() - n);
                assert(forall|i: int| 0 <= i < a.len() - n ==> digits_of(j)[i] == a[n + i]
                    && digits_of(k)[i] == a[n + i]);
            }
            assert(val_of(digits_of(j)) == val_of(digits_of(k)));
            assert(false);
        }
    }
}

/// The longest all-digit suffix of a name; what precedes it.
pub open spec fn split_base(s: Seq<char>) -> Seq<char>
    decreases s.len(),
{
    if s.len() == 0 || !is_digit_char(s.last()) {
        s
    } else {
        split_base(s.drop_last())
    }
}

/// The longest all-digit suffix of a name.
pub open spec fn split_suffix(s: Seq<char>) -> Seq<char>
    decreases s.len(),
{
    if s.len() == 0 || !is_digit_char(s.last()) {
        Seq::empty()
    } else {
        split_suffix(s.drop_last()).push(s.last())
    }
}

/// The split decomposes the name: the base, then the digit suffix, and the
/// base does not end in a digit.
pub proof fn lemma_split_parts(s: Seq<char>)
    ensures
        split_base(s) + split_suffix(s) =~= s,
        forall|i: int| 0 <= i < split_suffix(s).len()
            ==> is_digit_char(#[trigger] split_suffix(s)[i]),
        split_base(s).len() + split_suffix(s).len() == s.len(),
        split_base(s).len() > 0 ==> !is_digit_char(split_base(s).last()),
        split_base(s) =~= s.subrange(0, split_base(s).len() as int),
        split_suffix(s) =~= s.subrange(split_base(s).len() as int, s.len() as int),
    decreases s.len(),
{
    if s.len() == 0 || !is_digit_char(s.last()) {
        assert(split_base(s) + split_suffix(s) =~= s);
        assert(split_base(s) =~= s.subrange(0, split_base(s).len() as int));
        assert(split_suffix(s) =~= s.subrange(split_base(s).len() as int, s.len() as int));
    } else {
        lemma_split_parts(s.drop_last());
        assert(split_base(s) + split_suffix(s) =~= (split_base(s.drop_last())
            + split_suffix(s.drop_last())).push(s.last()));
        assert(split_base(s) =~= s.subrange(0, split_base(s).len() as int));
        assert(split_suffix(s) =~= s.subrange(split_base(s).len() as int, s.len() as int));
    }
}

/// A name with trailing underscores removed.
pub open spec fn trim_underscores(s: Seq<char>) -> Seq<char>
    decreases s.len(),
{
    if s.len() == 0 || s.last() != '_' {
        s
    } else {
        trim_underscores(s.drop_last())
    }
}

/// Trimming decomposes the name: what stays, then underscores only, and
/// what stays does not end in an underscore.
pub proof fn lemma_trim_parts(s: Seq<char>)
    ensures
        trim_underscores(s).len() <= s.len(),
        trim_underscores(s) =~= s.subrange(0, trim_underscores(s).len() as int),
        forall|i: int| trim_underscores(s).len() <= i < s.len() ==> s[i] == '_',
        trim_underscores(s).len() > 0 ==> trim_underscores(s).last() != '_',
    decreases s.len(),
{
    if s.len() == 0 || s.last() != '_' {
        assert(trim_underscores(s) =~= s.subrange(0, trim_underscores(s).len() as int));
    } else {
        lemma_trim_parts(s.drop_last());
        assert(trim_underscores(s) =~= s.subrange(0, trim_underscores(s).len() as int));
        assert forall|i: int| trim_underscores(s).len() <= i < s.len() implies s[i] == '_' by {
            if i < s.len() - 1 {
                assert(s.drop_last()[i] == '_');
            }
        }
    }
}

/// Reading a digit prefix never decreases the value read so far.
pub proof fn lemma_val_of_push(s: Seq<char>, c: char)
    ensures
        val_of(s.push(c)) == val_of(s) * 10 + digit_val(c),
{
    assert(s.push(c).drop_last() =~= s);
}

/// The digit character of a value below ten.
pub fn digit_to_char(d: usize) -> (c: char)
    requires
        d < 10,
    ensures
        c == digit_char(d as nat),
{
    if d == 0 {
        '0'
    } else if d == 1 {
        '1'
    } else if d == 2 {
        '2'
    } else if d == 3 {
        '3'
    } else if d == 4 {
        '4'
    } else if d == 5 {
        '5'
    } else if d == 6 {
        '6'
    } else if d == 7 {
        '7'
    } else if d == 8 {
        '8'
    } else {
        '9'
    }
}

/// True iff `c` is an ASCII decimal digit.
pub fn char_is_digit(c: char) -> (r: bool)
    ensures
        r == is_digit_char(c),
{
    c == '0' || c == '1' || c == '2' || c == '3' || c == '4' || c == '5' || c == '6' || c == '7'
        || c == '8' || c == '9'
}

/// The value of a decimal digit character.
pub fn char_digit_val(c: char) -> (r: usize)
    requires
        is_digit_char(c),
    ensures
        r == digit_val(c),
{
    if c == '0' {
        0
    } else if c == '1' {
        1
    } else if c == '2' {
        2
    } else if c == '3' {
        3
    } else if c == '4' {
        4
    } else if c == '5' {
        5
    } else if c == '6' {
        6
    } else if c == '7' {
        7
    } else if c == '8' {
        8
    } else {
        9
    }
}

/// Appends the decimal rendering of `n` to `s`.
pub fn push_decimal(s: &mut String, n: usize)
    ensures
        final(s)@ == old(s)@ + digits_of(n as nat),
    decreases n,
{
    if n < 10 {
        push_char(s, digit_to_char(n));
        proof {
            assert(old(s)@.push(digit_char(n as nat)) =~= old(s)@ + digits_of(n as nat));
        }
    } else {
        push_decimal(s, n / 10);
        push_char(s, digit_to_char(n % 10));
        proof {
            assert((old(s)@ + digits_of(n as nat / 10)).push(digit_char(n as nat % 10)) =~= old(
                s,
            )@ + digits_of(n as nat));
        }
    }
}

/// A copy of `s` without its trailing underscores.
pub fn trim_trailing_underscores(s: &str) -> (r: String)
    ensures
        r@ == trim_underscores(s@),
{
    let chars = crate::text::chars_of(s);
    let n = chars.len();
    let ghost keep = trim_underscores(s@).len();
    proof {
        lemma_trim_parts(s@);
    }
    let mut cut: usize = n;
    loop
        invariant
            cut <= n,
            n == s@.len(),
            chars@ == s@,
            keep == trim_underscores(s@).len(),
            keep <= cut,
            forall|j: int| cut <= j < n ==> s@[j] == '_',
        ensures
            cut == keep,
        decreases cut,
    {
        proof {
            lemma_trim_parts(s@);
        }
        if cut == 0 {
            break;
        }
        if chars[cut - 1] != '_' {
            proof {
                if cut > keep {
                    assert(s@[cut - 1] == '_');
                }
            }
            break;
        }
        proof {
            if cut == keep {
                assert(trim_underscores(s@).last() != '_');
                assert(s@[keep - 1] == trim_underscores(s@).last());
            }
        }
        cut = cut - 1;
    }
    let r = crate::text::string_from_chars(&chars, 0, cut);
    proof {
        assert(r@ =~= trim_underscores(s@));
    }
    r
}

/// Builds the candidate name of index `k` derived from `hint`.
pub fn make_cand(hint: &str, k: usize) -> (r: String)
    ensures
        r@ == cand(hint@, k as nat),
{
    if k == 0 {
        hint.to_owned()
    } else {
        let mut s = hint.to_owned();
        push_char(&mut s, '_');
        push_decimal(&mut s, k);
        proof {
            assert(hint@.push('_') =~= hint@ + seq!['_']);
        }
        s
    }
}

} // verus!
