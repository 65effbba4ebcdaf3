//! Text models shared by the parser and the trace writer: splitting a line
//! into whitespace-separated tokens, splitting input into lines, and reading
//! and writing unsigned decimal numbers.

use vstd::prelude::*;

verus! {

/// Characters treated as separators between the fields of an input line.
pub open spec fn is_ws(c: char) -> bool {
    c == ' ' || c == '\t' || c == '\r'
}

/// Decimal digits, `'0'` (value 48) through `'9'` (value 57).
pub open spec fn is_digit(c: char) -> bool {
    48 <= c as u32 && c as u32 <= 57
}

/// Numeric value of one decimal digit.
pub open spec fn digit_val(c: char) -> int {
    c as u32 - 48
}

/// The digit character for a value below ten.
pub open spec fn digit_char(d: int) -> char {
    ((d + 48) as u8) as char
}

/// Decimal representation of a number, most significant digit first,
/// without leading zeros (a single `'0'` for zero).
pub open spec fn dec_digits(n: nat) -> Seq<char>
    decreases n,
{
    if n < 10 {
        seq![digit_char(n as int)]
    } else {
        dec_digits(n / 10).push(digit_char((n % 10) as int))
    }
}

/// Whether a token is a nonempty run of decimal digits.
pub open spec fn is_digits(t: Seq<char>) -> bool {
    t.len() > 0 && forall|i: int| 0 <= i < t.len() ==> is_digit(#[trigger] t[i])
}

/// The value of a run of decimal digits, most significant first.
pub open spec fn digits_val(t: Seq<char>) -> nat
    decreases t.len(),
{
    if t.len() == 0 {
        0
    } else {
        (digits_val(t.drop_last()) * 10 + digit_val(t.last())) as nat
    }
}

/// The tokens of `s` prefixed by an unfinished token `cur`: maximal nonempty
/// runs of non-separator characters, in order.
pub open spec fn toks(s: Seq<char>, cur: Seq<char>) -> Seq<Seq<char>>
    decreases s.len(),
{
    if s.len() == 0 {
        if cur.len() == 0 {
            Seq::empty()
        } else {
            seq![cur]
        }
    } else if is_ws(s.first()) {
        if cur.len() == 0 {
            toks(s.drop_first(), Seq::empty())
        } else {
            seq![cur] + toks(s.drop_first(), Seq::empty())
        }
    } else {
        toks(s.drop_first(), cur.push(s.first()))
    }
}

/// The whitespace-separated tokens of a line.
pub open spec fn tokens_of(s: Seq<char>) -> Seq<Seq<char>> {
    toks(s, Seq::empty())
}

/// A line with one trailing carriage return removed.
pub open spec fn strip_cr(l: Seq<char>) -> Seq<char> {
    if l.len() > 0 && l.last() == '\r' {
        l.drop_last()
    } else {
        l
    }
}

/// The lines of `s` continued from an unfinished line `cur`: segments
/// separated by `'\n'`, each with a trailing `'\r'` removed, a last segment
/// only if nonempty.
pub open spec fn lines_go(s: Seq<char>, cur: Seq<char>) -> Seq<Seq<char>>
    decreases s.len(),
{
    if s.len() == 0 {
        if cur.len() == 0 {
            Seq::empty()
        } else {
            seq![strip_cr(cur)]
        }
    } else if s.first() == '\n' {
        seq![strip_cr(cur)] + lines_go(s.drop_first(), Seq::empty())
    } else {
        lines_go(s.drop_first(), cur.push(s.first()))
    }
}

/// The lines of an input text.
pub open spec fn lines_of(s: Seq<char>) -> Seq<Seq<char>> {
    lines_go(s, Seq::empty())
}

/// Relies on `String::push`: appends exactly one character at the end.
#[verifier::external_body]
pub fn push_char(s: &mut String, c: char)
    ensures
        final(s)@ == old(s)@.push(c),
{
    s.push(c);
}

/// The digit character for a value below ten.
pub fn digit_char_exec(d: u8) -> (c: char)
    requires
        d < 10,
    ensures
        c == digit_char(d as int),
{
    (48 + d) as char
}

/// Appends the decimal representation of `n`.
pub fn push_decimal(s: &mut String, n: u32)
    ensures
        final(s)@ == old(s)@ + dec_digits(n as nat),
    decreases n,
{
    if n < 10 {
        push_char(s, digit_char_exec(n as u8));
        assert(final(s)@ =~= old(s)@ + dec_digits(n as nat));
    } else {
        push_decimal(s, n / 10);
        push_char(s, digit_char_exec((n % 10) as u8));
        assert(final(s)@ =~= old(s)@ + dec_digits(n as nat));
    }
}

/// Extending a run of digits never lowers its value.
pub proof fn lemma_digits_val_grows(t: Seq<char>, i: int)
    requires
        0 <= i <= t.len(),
        forall|j: int| 0 <= j < t.len() ==> is_digit(#[trigger] t[j]),
    ensures
        digits_val(t.take(i)) <= digits_val(t),
    decreases t.len() - i,
{
    if i < t.len() {
        let a = t.take(i);
        let b = t.take(i + 1);
        assert(b.drop_last() =~= a);
        assert(digits_val(b) == (digits_val(a) * 10 + digit_val(t[i])) as nat);
        assert(digits_val(a) <= digits_val(a) * 10 + digit_val(t[i]));
        lemma_digits_val_grows(t, i + 1);
    } else {
        assert(t.take(i) =~= t);
    }
}

/// Reads a token as an unsigned decimal number; `None` when the token is
/// empty, holds a non-digit, or exceeds `u32::MAX`.
pub fn parse_u32(t: &Vec<char>) -> (r: Option<u32>)
    ensures
        r is Some <==> is_digits(t@) && digits_val(t@) <= u32::MAX,
        r matches Some(v) ==> v as nat == digits_val(t@),
{
    if t.len() == 0 {
        return None;
    }
    let mut acc: u64 = 0;
    let mut i: usize = 0;
    while i < t.len()
        invariant
            0 <= i <= t@.len(),
            t@.len() > 0,
            forall|j: int| 0 <= j < i ==> is_digit(#[trigger] t@[j]),
            acc == digits_val(t@.take(i as int)),
            acc <= u32::MAX,
        decreases t@.len() - i,
    {
        let c = t[i];
        let cv = c as u32;
        if cv < 48 || cv > 57 {
            assert(!is_digit(t@[i as int]));
            return None;
        }
        let d = cv - 48;
        acc = acc * 10 + d as u64;
        proof {
            assert(t@.take(i + 1).drop_last() =~= t@.take(i as int));
            assert(t@.take(i + 1).last() == t@[i as int]);
        }
        if acc > u32::MAX as u64 {
            proof {
                if forall|j: int| 0 <= j < t@.len() ==> is_digit(#[trigger] t@[j]) {
                    lemma_digits_val_grows(t@, i + 1);
                }
            }
            return None;
        }
        i = i + 1;
    }
    proof {
        assert(t@.take(t@.len() as int) =~= t@);
    }
    Some(acc as u32)
}

/// The element views of a vector of character vectors.
pub open spec fn views_of(v: Seq<Vec<char>>) -> Seq<Seq<char>> {
    v.map_values(|t: Vec<char>| t@)
}

/// Splits a line into its whitespace-separated tokens.
pub fn tokenize(s: &Vec<char>) -> (r: Vec<Vec<char>>)
    ensures
        views_of(r@) == tokens_of(s@),
{
    let mut done: Vec<Vec<char>> = Vec::new();
    let mut cur: Vec<char> = Vec::new();
    let mut i: usize = 0;
    proof {
        assert(views_of(done@) =~= Seq::<Seq<char>>::empty());
        assert(s@.skip(0) =~= s@);
    }
    while i < s.len()
        invariant
            0 <= i <= s@.len(),
            tokens_of(s@) == views_of(done@) + toks(s@.skip(i as int), cur@),
        decreases s@.len() - i,
    {
        let c = s[i];
        proof {
            assert(s@.skip(i as int).first() == s@[i as int]);
            assert(s@.skip(i as int).drop_first() =~= s@.skip(i + 1));
        }
        if c == ' ' || c == '\t' || c == '\r' {
            assert(is_ws(s@.skip(i as int).first()));
            if cur.len() > 0 {
                let ghost old_done = done@;
                let ghost old_cur = cur@;
                assert(toks(s@.skip(i as int), old_cur) == seq![old_cur] + toks(
                    s@.skip(i + 1),
                    Seq::empty(),
                ));
                done.push(cur);
                cur = Vec::new();
                proof {
                    assert(views_of(done@) =~= views_of(old_done).push(old_cur));
                    assert(views_of(old_done).push(old_cur) + toks(s@.skip(i + 1), Seq::empty())
                        =~= views_of(old_done) + (seq![old_cur] + toks(
                        s@.skip(i + 1),
                        Seq::empty(),
                    )));
                }
            } else {
                assert(cur@ =~= Seq::<char>::empty());
                assert(toks(s@.skip(i as int), cur@) == toks(s@.skip(i + 1), Seq::empty()));
            }
        } else {
            assert(!is_ws(s@.skip(i as int).first()));
            let ghost old_cur = cur@;
            assert(toks(s@.skip(i as int), old_cur) == toks(s@.skip(i + 1), old_cur.push(
                s@[i as int],
            )));
            cur.push(c);
        }
        i = i + 1;
    }
    proof {
        assert(s@.skip(s@.len() as int) =~= Seq::<char>::empty());
    }
    if cur.len() > 0 {
        let ghost old_done = done@;
        let ghost old_cur = cur@;
        done.push(cur);
        proof {
            assert(views_of(done@) =~= views_of(old_done).push(old_cur));
            assert(views_of(old_done).push(old_cur) =~= views_of(old_done) + seq![old_cur]);
        }
    }
    done
}

/// Collects the characters of a string slice.
pub fn str_to_chars(s: &str) -> (r: Vec<char>)
    ensures
        r@ == s@,
{
    let n = s.unicode_len();
    let mut r: Vec<char> = Vec::new();
    let mut i: usize = 0;
    while i < n
        invariant
            0 <= i <= n,
            n == s@.len(),
            r@ == s@.take(i as int),
        decreases n - i,
    {
        let c = s.get_char(i);
        r.push(c);
        proof {
            assert(s@.take(i + 1) =~= s@.take(i as int).push(s@[i as int]));
        }
        i = i + 1;
    }
    proof {
        assert(s@.take(n as int) =~= s@);
    }
    r
}

} // verus!
