use vstd::prelude::*;
use vstd::string::{StrSliceExecFns, StringExecFns};

verus! {

/// The decimal digit `d` as text.
pub open spec fn digit_text(d: int) -> Seq<char> {
    if d == 0 {
        "0"@
    } else if d == 1 {
        "1"@
    } else if d == 2 {
        "2"@
    } else if d == 3 {
        "3"@
    } else if d == 4 {
        "4"@
    } else if d == 5 {
        "5"@
    } else if d == 6 {
        "6"@
    } else if d == 7 {
        "7"@
    } else if d == 8 {
        "8"@
    } else {
        "9"@
    }
}

/// The decimal notation of `n`, without leading zeros.
pub open spec fn nat_text(n: nat) -> Seq<char>
    decreases n,
{
    if n < 10 {
        digit_text(n as int)
    } else {
        nat_text(n / 10) + digit_text((n % 10) as int)
    }
}

/// The decimal notation of `v`, with a leading `-` when it is negative.
pub open spec fn int_text(v: int) -> Seq<char> {
    if v < 0 {
        "-"@ + nat_text((-v) as nat)
    } else {
        nat_text(v as nat)
    }
}

/// `s` written `n` times in a row.
pub open spec fn repeat_text(s: Seq<char>, n: int) -> Seq<char>
    decreases n,
{
    if n <= 0 {
        seq![]
    } else {
        repeat_text(s, n - 1) + s
    }
}

/// `a` comes strictly before `b` in lexicographic order of code points, looking
/// from position `i` on, the earlier characters being equal. UTF-8 keeps the
/// order of code points, so this is the order `String` compares by.
pub open spec fn lex_less_from(a: Seq<char>, b: Seq<char>, i: int) -> bool
    decreases a.len() - i,
{
    if i < 0 || i >= a.len() {
        0 <= i < b.len()
    } else if i >= b.len() {
        false
    } else if a[i] != b[i] {
        (a[i] as u32) < (b[i] as u32)
    } else {
        lex_less_from(a, b, i + 1)
    }
}

/// `a` comes strictly before `b` in the order of `String`.
pub open spec fn lex_less(a: Seq<char>, b: Seq<char>) -> bool {
    lex_less_from(a, b, 0)
}

/// The text of the decimal digit `d`.
fn digit_str(d: u64) -> (s: &'static str)
    requires
        d < 10,
    ensures
        s@ == digit_text(d as int),
{
    if d == 0 {
        "0"
    } else if d == 1 {
        "1"
    } else if d == 2 {
        "2"
    } else if d == 3 {
        "3"
    } else if d == 4 {
        "4"
    } else if d == 5 {
        "5"
    } else if d == 6 {
        "6"
    } else if d == 7 {
        "7"
    } else if d == 8 {
        "8"
    } else {
        "9"
    }
}

/// Appends the decimal notation of `n`.
fn push_digits(sb: &mut String, n: u64)
    ensures
        final(sb)@ == old(sb)@ + nat_text(n as nat),
    decreases n,
{
    if n >= 10 {
        push_digits(sb, n / 10);
    }
    sb.append(digit_str(n % 10));
    proof {
        if n >= 10 {
            assert(final(sb)@ =~= old(sb)@ + nat_text(n as nat));
        }
    }
}

/// Appends the decimal notation of `v`.
pub fn push_int(sb: &mut String, v: i32)
    ensures
        final(sb)@ == old(sb)@ + int_text(v as int),
{
    if v < 0 {
        sb.append("-");
        let wide: i64 = v as i64;
        push_digits(sb, (0 - wide) as u64);
        assert(final(sb)@ =~= old(sb)@ + int_text(v as int));
    } else {
        push_digits(sb, v as u64);
    }
}

/// Appends `s` written `n` times.
pub fn push_repeated(sb: &mut String, s: &str, n: i32)
    ensures
        final(sb)@ == old(sb)@ + repeat_text(s@, n as int),
{
    let ghost start = sb@;
    let mut i: i32 = 0;
    while i < n
        invariant
            0 <= i,
            n > 0 ==> i <= n,
            n <= 0 ==> i == 0,
            sb@ == start + repeat_text(s@, i as int),
        decreases n - i,
    {
        sb.append(s);
        i = i + 1;
        assert(sb@ =~= start + repeat_text(s@, i as int));
    }
    proof {
        if n <= 0 {
            assert(i == 0);
            assert(repeat_text(s@, n as int) =~= Seq::<char>::empty());
            assert(repeat_text(s@, 0) =~= Seq::<char>::empty());
            assert(sb@ =~= start + repeat_text(s@, n as int));
        }
    }
}

/// `a` comes strictly before `b` in the order of `String`.
pub fn str_less(a: &str, b: &str) -> (less: bool)
    ensures
        less == lex_less(a@, b@),
{
    let la = a.unicode_len();
    let lb = b.unicode_len();
    let mut i: usize = 0;
    while i < la && i < lb
        invariant
            la == a@.len(),
            lb == b@.len(),
            i <= la,
            i <= lb,
            lex_less(a@, b@) == lex_less_from(a@, b@, i as int),
        decreases la - i,
    {
        let ca = a.get_char(i);
        let cb = b.get_char(i);
        if ca != cb {
            return (ca as u32) < (cb as u32);
        }
        i = i + 1;
    }
    i < lb && i == la
}

/// `a` and `b` are the same text.
pub fn str_equal(a: &str, b: &str) -> (same: bool)
    ensures
        same == (a@ == b@),
{
    let la = a.unicode_len();
    let lb = b.unicode_len();
    if la != lb {
        return false;
    }
    let mut i: usize = 0;
    while i < la
        invariant
            la == a@.len(),
            lb == b@.len(),
            la == lb,
            i <= la,
            forall|j: int| 0 <= j < i ==> a@[j] == b@[j],
        decreases la - i,
    {
        if a.get_char(i) != b.get_char(i) {
            return false;
        }
        i = i + 1;
    }
    assert(a@ =~= b@);
    true
}

/// The order of `String` is transitive.
pub(crate) proof fn lemma_lex_less_transitive(a: Seq<char>, b: Seq<char>, c: Seq<char>, i: int)
    requires
        0 <= i,
        lex_less_from(a, b, i),
        lex_less_from(b, c, i),
    ensures
        lex_less_from(a, c, i),
    decreases a.len() - i,
{
    if i < a.len() && i < b.len() && i < c.len() && a[i] == b[i] && b[i] == c[i] {
        lemma_lex_less_transitive(a, b, c, i + 1);
    }
}

/// No text comes strictly before itself.
pub(crate) proof fn lemma_lex_less_irreflexive(a: Seq<char>, i: int)
    requires
        0 <= i,
    ensures
        !lex_less_from(a, a, i),
    decreases a.len() - i,
{
    if i < a.len() {
        lemma_lex_less_irreflexive(a, i + 1);
    }
}

} // verus!
