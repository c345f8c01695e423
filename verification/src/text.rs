//! Text of messages, paths and media types.
use vstd::prelude::*;
use vstd::string::*;

verus! {

/// The decimal digit for a number below ten.
pub open spec fn digit(d: nat) -> char {
    if d == 0 {
        '0'
    } else if d == 1 {
        '1'
    } else if d == 2 {
        '2'
    } else if d == 3 {
        '3'
    } else if d == 4 {
        '4'
    } else if d == 5 {
        '5'
    } else if d == 6 {
        '6'
    } else if d == 7 {
        '7'
    } else if d == 8 {
        '8'
    } else {
        '9'
    }
}

/// A natural number in decimal.
pub open spec fn decimal(n: nat) -> Seq<char>
    decreases n,
{
    if n < 10 {
        seq![digit(n)]
    } else {
        decimal(n / 10).push(digit(n % 10))
    }
}

/// An integer in decimal.
pub open spec fn decimal_int(n: int) -> Seq<char> {
    if n < 0 {
        seq!['-'] + decimal((-n) as nat)
    } else {
        decimal(n as nat)
    }
}

fn digit_text(d: u64) -> (r: &'static str)
    requires
        d < 10,
    ensures
        r@ == seq![digit(d as nat)],
{
    proof {
        reveal_strlit("0");
        reveal_strlit("1");
        reveal_strlit("2");
        reveal_strlit("3");
        reveal_strlit("4");
        reveal_strlit("5");
        reveal_strlit("6");
        reveal_strlit("7");
        reveal_strlit("8");
        reveal_strlit("9");
    }
    let r = if d == 0 {
        "0"
    } else if d == 1 {
        "1"
    } else if d == 2 {
        "2"
    } else if d == 3 {
        "3"
    } else if d == 4 {
        "4"
    } else if d == 5 {
        "5"
    } else if d == 6 {
        "6"
    } else if d == 7 {
        "7"
    } else if d == 8 {
        "8"
    } else {
        "9"
    };
    assert(r@ =~= seq![digit(d as nat)]);
    r
}

/// Appends a number in decimal.
pub fn append_decimal(s: &mut String, n: u64)
    ensures
        final(s)@ == old(s)@ + decimal(n as nat),
    decreases n,
{
    if n < 10 {
        s.append(digit_text(n));
    } else {
        append_decimal(s, n / 10);
        s.append(digit_text(n % 10));
        assert(s@ =~= old(s)@ + decimal(n as nat));
    }
}

/// Appends an integer in decimal.
pub fn append_decimal_int(s: &mut String, n: i64)
    ensures
        final(s)@ == old(s)@ + decimal_int(n as int),
{
    if n < 0 {
        s.append("-");
        proof {
            reveal_strlit("-");
            assert("-"@ =~= seq!['-']);
        }
        let size: u64 = if n == i64::MIN {
            0x8000_0000_0000_0000
        } else {
            (-n) as u64
        };
        append_decimal(s, size);
        assert(s@ =~= old(s)@ + decimal_int(n as int));
    } else {
        append_decimal(s, n as u64);
    }
}

/// Whether a text begins with another.
pub fn starts_with(s: &str, prefix: &str) -> (r: bool)
    ensures
        r == prefix@.is_prefix_of(s@),
{
    let n: usize = prefix.unicode_len();
    if s.unicode_len() < n {
        return false;
    }
    let mut i: usize = 0;
    while i < n
        invariant
            i <= n == prefix@.len() <= s@.len(),
            forall|k: int| 0 <= k < i ==> s@[k] == prefix@[k],
        decreases n - i,
    {
        if s.get_char(i) != prefix.get_char(i) {
            return false;
        }
        i = i + 1;
    }
    assert(prefix@ =~= s@.subrange(0, n as int));
    true
}

/// Whether two texts are the same.
pub fn same_text(a: &str, b: &str) -> (r: bool)
    ensures
        r == (a@ == b@),
{
    let r = a.unicode_len() == b.unicode_len() && starts_with(a, b);
    proof {
        if r {
            assert(a@ =~= b@);
        }
    }
    r
}

/// Whether a text holds a NUL character.
pub open spec fn has_nul(s: Seq<char>) -> bool {
    exists|i: int| 0 <= i < s.len() && #[trigger] s[i] == '\0'
}

/// Computes [`has_nul`].
pub fn contains_nul(s: &str) -> (r: bool)
    ensures
        r == has_nul(s@),
{
    let n: usize = s.unicode_len();
    let mut i: usize = 0;
    while i < n
        invariant
            i <= n == s@.len(),
            forall|k: int| 0 <= k < i ==> s@[k] != '\0',
        decreases n - i,
    {
        if s.get_char(i) == '\0' {
            return true;
        }
        i = i + 1;
    }
    false
}

/// A text in quotation marks, escaped as the `Debug` format of `str` has it.
pub uninterp spec fn quoted(s: Seq<char>) -> Seq<char>;

/// Formats a text with `{:?}`, as `<str as Debug>::fmt` does: the result is the same for equal
/// texts.
#[verifier::external_body]
pub(crate) fn quote(s: &str) -> (r: String)
    ensures
        r@ == quoted(s@),
{
    format!("{s:?}")
}

/// The number that a run of decimal digits stands for.
pub open spec fn number(s: Seq<char>) -> int
    decreases s.len(),
{
    if s.len() == 0 {
        0
    } else {
        10 * number(s.drop_last()) + (s.last() as int - '0' as int)
    }
}

/// A number in decimal reads back as the number. It consists of digits, and begins with a zero
/// only if it is zero.
pub proof fn lemma_decimal_reads_back(n: nat)
    ensures
        decimal(n).len() > 0,
        number(decimal(n)) == n,
        forall|i: int| 0 <= i < decimal(n).len() ==> '0' <= #[trigger] decimal(n)[i] <= '9',
        decimal(n)[0] == '0' <==> n == 0,
        n == 0 ==> decimal(n).len() == 1,
    decreases n,
{
    reveal_with_fuel(number, 2);
    let s = decimal(n);
    if n < 10 {
        assert(s.drop_last() =~= Seq::<char>::empty());
        assert(s.last() == digit(n));
    } else {
        lemma_decimal_reads_back(n / 10);
        assert(s.drop_last() =~= decimal(n / 10));
        assert(s.last() == digit(n % 10));
    }
}

/// An integer in decimal is its size in decimal, behind a minus sign just where it is negative.
pub proof fn lemma_signed_decimal_reads_back(n: int)
    ensures
        n >= 0 ==> number(decimal_int(n)) == n,
        n < 0 <==> decimal_int(n)[0] == '-',
        n < 0 ==> number(decimal_int(n).skip(1)) == -n,
{
    if n < 0 {
        lemma_decimal_reads_back((-n) as nat);
        assert(decimal_int(n).skip(1) =~= decimal((-n) as nat));
    } else {
        lemma_decimal_reads_back(n as nat);
    }
}

/// Whether a text is an integer in decimal: digits that stand for its size, behind a minus sign
/// just where it is negative.
pub open spec fn reads_as(s: Seq<char>, n: int) -> bool {
    if n < 0 {
        s.len() > 1 && s[0] == '-' && number(s.skip(1)) == -n
    } else {
        s.len() > 0 && s[0] != '-' && number(s) == n
    }
}

/// An integer in decimal reads as the integer.
pub proof fn lemma_reads_as(n: int)
    ensures
        reads_as(decimal_int(n), n),
        n >= 0 ==> reads_as(decimal(n as nat), n),
{
    lemma_signed_decimal_reads_back(n);
    if n < 0 {
        lemma_decimal_reads_back((-n) as nat);
    } else {
        lemma_decimal_reads_back(n as nat);
    }
}

/// Whether a text is some words and, behind them, an integer.
pub open spec fn tells(s: Seq<char>, words: Seq<char>, n: int) -> bool {
    words.is_prefix_of(s) && reads_as(s.skip(words.len() as int), n)
}

/// Words with an integer behind them tell the integer.
pub proof fn lemma_tells(words: Seq<char>, n: int)
    ensures
        tells(words + decimal_int(n), words, n),
        n >= 0 ==> tells(words + decimal(n as nat), words, n),
{
    lemma_reads_as(n);
    assert((words + decimal_int(n)).skip(words.len() as int) =~= decimal_int(n));
    assert(words =~= (words + decimal_int(n)).subrange(0, words.len() as int));
    if n >= 0 {
        assert((words + decimal(n as nat)).skip(words.len() as int) =~= decimal(n as nat));
        assert(words =~= (words + decimal(n as nat)).subrange(0, words.len() as int));
    }
}

/// Whether a text is two pairs of words and an integer.
pub open spec fn tells_both(s: Seq<char>, words: Seq<char>, n: int, more: Seq<char>, m: int) -> bool {
    exists|a: Seq<char>, b: Seq<char>| #[trigger]
        reads_as(a, n) && #[trigger] reads_as(b, m) && s == words + a + more + b
}

} // verus!
