//! Text-level building blocks of the log and wire formats: field
//! escaping, field parsing, and the decimal rendering of generation
//! numbers.  Records and messages are lines of space-separated escaped
//! fields, so an encoded field never holds a raw space or newline.

use vstd::prelude::*;
use vstd::string::StrSliceExecFns;

verus! {

/// The escaped form of one character.
pub open spec fn esc_char(c: char) -> Seq<char> {
    if c == '\\' {
        seq!['\\', '\\']
    } else if c == '\n' {
        seq!['\\', 'n']
    } else if c == ' ' {
        seq!['\\', 's']
    } else {
        seq![c]
    }
}

/// The escaped form of a field.
pub open spec fn esc(t: Seq<char>) -> Seq<char>
    decreases t.len(),
{
    if t.len() == 0 {
        Seq::empty()
    } else {
        esc_char(t[0]) + esc(t.drop_first())
    }
}

/// The two characters that end a field: the field separator and the
/// record terminator.
pub open spec fn is_delim(c: char) -> bool {
    c == ' ' || c == '\n'
}

/// The character an escape code stands for, if the code is valid.
pub open spec fn unesc_code(c: char) -> Option<char> {
    if c == '\\' {
        Some('\\')
    } else if c == 'n' {
        Some('\n')
    } else if c == 's' {
        Some(' ')
    } else {
        None
    }
}

/// Reads one escaped field of `s` from `i`: the decoded text, and the
/// position of the delimiter that ended the field.  `None` on a bad
/// escape or when no delimiter follows.
pub open spec fn parse_field(s: Seq<char>, i: int) -> Option<(Seq<char>, int)>
    decreases s.len() - i,
{
    if i < 0 || i >= s.len() {
        None
    } else if is_delim(s[i]) {
        Some((Seq::empty(), i))
    } else if s[i] == '\\' {
        if i + 1 < s.len() {
            match unesc_code(s[i + 1]) {
                Some(c) => match parse_field(s, i + 2) {
                    Some((t, j)) => Some((seq![c] + t, j)),
                    None => None,
                },
                None => None,
            }
        } else {
            None
        }
    } else {
        match parse_field(s, i + 1) {
            Some((t, j)) => Some((seq![s[i]] + t, j)),
            None => None,
        }
    }
}

/// Escaping distributes over concatenation.
pub proof fn lemma_esc_append(a: Seq<char>, b: Seq<char>)
    ensures
        esc(a + b) == esc(a) + esc(b),
    decreases a.len(),
{
    if a.len() == 0 {
        assert(a + b =~= b);
        assert(esc(a) + esc(b) =~= esc(b));
    } else {
        assert((a + b).drop_first() =~= a.drop_first() + b);
        assert((a + b)[0] == a[0]);
        lemma_esc_append(a.drop_first(), b);
        assert(esc(a + b) =~= esc(a) + esc(b));
    }
}

/// A parsed field always ends at a delimiter inside the text.
pub proof fn lemma_parse_field_ends(s: Seq<char>, i: int)
    requires
        parse_field(s, i) is Some,
    ensures
        ({
            let (t, j) = parse_field(s, i)->Some_0;
            i <= j < s.len() && is_delim(s[j])
        }),
    decreases s.len() - i,
{
    if !(i < 0 || i >= s.len()) && !is_delim(s[i]) {
        if s[i] == '\\' {
            lemma_parse_field_ends(s, i + 2);
        } else {
            lemma_parse_field_ends(s, i + 1);
        }
    }
}

/// Parsing inverts escaping: where `s` holds `esc(t)` at `i` followed
/// by a delimiter, the field parse of `s` at `i` yields exactly `t`.
pub proof fn lemma_parse_field_esc(t: Seq<char>, s: Seq<char>, i: int)
    requires
        0 <= i,
        i + esc(t).len() < s.len(),
        s.subrange(i, i + esc(t).len() as int) == esc(t),
        is_delim(s[i + esc(t).len()]),
    ensures
        parse_field(s, i) == Some((t, i + esc(t).len() as int)),
    decreases t.len(),
{
    assert forall|x: int| 0 <= x < esc(t).len() implies s[i + x] == esc(t)[x] by {
        assert(s.subrange(i, i + esc(t).len() as int)[x] == s[i + x]);
    }
    if t.len() == 0 {
        assert(t =~= Seq::<char>::empty());
    } else {
        let c0 = t[0];
        let t1 = t.drop_first();
        let e0 = esc_char(c0);
        let k = e0.len() as int;
        assert(esc(t) == e0 + esc(t1));
        assert forall|x: int| 0 <= x < k implies esc(t)[x] == e0[x] by {}
        assert(s.subrange(i + k, i + k + esc(t1).len() as int) =~= esc(t1)) by {
            assert forall|x: int| 0 <= x < esc(t1).len() implies
                s.subrange(i + k, i + k + esc(t1).len() as int)[x] == esc(t1)[x] by {
                assert(s[i + k + x] == esc(t)[k + x]);
                assert(esc(t)[k + x] == esc(t1)[x]);
            }
        }
        lemma_parse_field_esc(t1, s, i + k);
        if c0 == '\\' || c0 == '\n' || c0 == ' ' {
            assert(s[i] == '\\');
            assert(unesc_code(s[i + 1]) == Some(c0));
            assert(seq![c0] + t1 =~= t);
        } else {
            assert(s[i + 0] == esc(t)[0]);
            assert(s[i] == c0);
            assert(!is_delim(s[i]) && s[i] != '\\');
            assert(seq![c0] + t1 =~= t);
        }
    }
}

/// Parsing only accepts canonical text: a parsed field re-escapes to
/// exactly the characters consumed.
pub proof fn lemma_parse_field_sound(s: Seq<char>, i: int)
    requires
        parse_field(s, i) is Some,
    ensures
        ({
            let (t, j) = parse_field(s, i)->Some_0;
            esc(t) == s.subrange(i, j)
        }),
    decreases s.len() - i,
{
    let (t, j) = parse_field(s, i)->Some_0;
    lemma_parse_field_ends(s, i);
    if is_delim(s[i]) {
        assert(t =~= Seq::<char>::empty());
        assert(esc(t) =~= s.subrange(i, i));
    } else if s[i] == '\\' {
        let c = unesc_code(s[i + 1])->Some_0;
        let (t1, j1) = parse_field(s, i + 2)->Some_0;
        lemma_parse_field_sound(s, i + 2);
        lemma_parse_field_ends(s, i + 2);
        assert(t == seq![c] + t1);
        assert(t[0] == c);
        assert(t.drop_first() =~= t1);
        assert(esc(t) == esc_char(c) + esc(t1));
        assert(esc_char(c) =~= s.subrange(i, i + 2)) by {
            assert(s.subrange(i, i + 2)[0] == s[i]);
            assert(s.subrange(i, i + 2)[1] == s[i + 1]);
        }
        assert(s.subrange(i, j) =~= s.subrange(i, i + 2) + s.subrange(i + 2, j));
        assert(esc(t) =~= s.subrange(i, j));
    } else {
        let (t1, j1) = parse_field(s, i + 1)->Some_0;
        lemma_parse_field_sound(s, i + 1);
        lemma_parse_field_ends(s, i + 1);
        assert(t == seq![s[i]] + t1);
        assert(t[0] == s[i]);
        assert(t.drop_first() =~= t1);
        assert(esc(t) == esc_char(s[i]) + esc(t1));
        assert(esc_char(s[i]) =~= s.subrange(i, i + 1)) by {
            assert(s.subrange(i, i + 1)[0] == s[i]);
        }
        assert(s.subrange(i, j) =~= s.subrange(i, i + 1) + s.subrange(i + 1, j));
        assert(esc(t) =~= s.subrange(i, j));
    }
}

/// Appends the escaped form of `s` to `out`.
pub fn push_escaped(out: &mut Vec<char>, s: &String)
    ensures
        final(out)@ == old(out)@ + esc(s@),
{
    let n = s.as_str().unicode_len();
    let mut i: usize = 0;
    while i < n
        invariant
            i <= n,
            n == s@.len(),
            out@ == old(out)@ + esc(s@.subrange(0, i as int)),
        decreases n - i,
    {
        let c = s.as_str().get_char(i);
        if c == '\\' {
            out.push('\\');
            out.push('\\');
        } else if c == '\n' {
            out.push('\\');
            out.push('n');
        } else if c == ' ' {
            out.push('\\');
            out.push('s');
        } else {
            out.push(c);
        }
        proof {
            let pre = s@.subrange(0, i as int);
            let cc = s@[i as int];
            let one = seq![cc];
            assert(s@.subrange(0, i as int + 1) =~= pre + one);
            lemma_esc_append(pre, one);
            assert(one.drop_first() =~= Seq::<char>::empty());
            assert(esc(Seq::<char>::empty()) =~= Seq::<char>::empty());
            assert(esc(one) == esc_char(cc) + esc(one.drop_first()));
            assert(esc(one) =~= esc_char(cc));
            assert(out@ =~= old(out)@ + esc(s@.subrange(0, i as int + 1)));
        }
        i = i + 1;
    }
    proof {
        assert(s@.subrange(0, n as int) =~= s@);
    }
}

/// Reads one escaped field of `text` from `from`, as `parse_field`
/// describes it.
pub fn decode_field(text: &Vec<char>, from: usize) -> (r: Option<(Vec<char>, usize)>)
    ensures
        match parse_field(text@, from as int) {
            Some((t, j)) => r matches Some((v, e)) && v@ == t && e as int == j,
            None => r is None,
        },
    decreases text.len() - from,
{
    if from >= text.len() {
        return None;
    }
    let c = text[from];
    if c == ' ' || c == '\n' {
        Some((Vec::new(), from))
    } else if c == '\\' {
        if from + 1 >= text.len() {
            return None;
        }
        let code = text[from + 1];
        let dec = if code == '\\' {
            Some('\\')
        } else if code == 'n' {
            Some('\n')
        } else if code == 's' {
            Some(' ')
        } else {
            None
        };
        match dec {
            None => None,
            Some(d) => match decode_field(text, from + 2) {
                None => None,
                Some((mut v, e)) => {
                    v.insert(0, d);
                    proof {
                        let (t, _) = parse_field(text@, from as int)->Some_0;
                        assert(v@ =~= t);
                    }
                    Some((v, e))
                },
            },
        }
    } else {
        match decode_field(text, from + 1) {
            None => None,
            Some((mut v, e)) => {
                v.insert(0, c);
                proof {
                    let (t, _) = parse_field(text@, from as int)->Some_0;
                    assert(v@ =~= t);
                }
                Some((v, e))
            },
        }
    }
}

/// The character of one decimal digit.
pub open spec fn digit_char(d: int) -> char {
    if d == 0 {
        '0'
    } else if d == 1 {
        '1'
    } else if d == 2 {
        '2'
    } else if d == 3 {
        '3'
    } else if d == 4 {
        '4'
    } else if d == 5 {
        '5'
    } else if d == 6 {
        '6'
    } else if d == 7 {
        '7'
    } else if d == 8 {
        '8'
    } else {
        '9'
    }
}

pub open spec fn is_digit(c: char) -> bool {
    c == '0' || c == '1' || c == '2' || c == '3' || c == '4' || c == '5' || c == '6' || c == '7'
        || c == '8' || c == '9'
}

/// The value of one digit character; zero elsewhere.
pub open spec fn digit_val(c: char) -> int {
    if c == '1' {
        1
    } else if c == '2' {
        2
    } else if c == '3' {
        3
    } else if c == '4' {
        4
    } else if c == '5' {
        5
    } else if c == '6' {
        6
    } else if c == '7' {
        7
    } else if c == '8' {
        8
    } else if c == '9' {
        9
    } else {
        0
    }
}

/// The canonical decimal rendering of a non-negative number.
pub open spec fn dec_digits(n: int) -> Seq<char>
    recommends
        n >= 0,
    decreases n,
{
    if n < 10 {
        seq![digit_char(n)]
    } else {
        dec_digits(n / 10).push(digit_char(n % 10))
    }
}

pub open spec fn is_digits(s: Seq<char>) -> bool {
    forall|i: int| 0 <= i < s.len() ==> is_digit(#[trigger] s[i])
}

/// The number a digit string stands for.
pub open spec fn dec_val(s: Seq<char>) -> int
    decreases s.len(),
{
    if s.len() == 0 {
        0
    } else {
        dec_val(s.drop_last()) * 10 + digit_val(s.last())
    }
}

pub proof fn lemma_dec_val_nonneg(s: Seq<char>)
    ensures
        dec_val(s) >= 0,
    decreases s.len(),
{
    if s.len() > 0 {
        lemma_dec_val_nonneg(s.drop_last());
    }
}

/// Reading the canonical rendering of `n` gives back `n`.
pub proof fn lemma_dec_round_trip(n: int)
    requires
        n >= 0,
    ensures
        is_digits(dec_digits(n)),
        dec_digits(n).len() >= 1,
        dec_val(dec_digits(n)) == n,
    decreases n,
{
    if n < 10 {
        let s = seq![digit_char(n)];
        assert(s.drop_last() =~= Seq::<char>::empty());
        assert(dec_val(s) == dec_val(s.drop_last()) * 10 + digit_val(s.last()));
    } else {
        lemma_dec_round_trip(n / 10);
        let s = dec_digits(n / 10).push(digit_char(n % 10));
        assert(s.drop_last() =~= dec_digits(n / 10));
        assert(dec_val(s) == dec_val(dec_digits(n / 10)) * 10 + digit_val(digit_char(n % 10)));
    }
}

/// A longer digit prefix never stands for a smaller number.
pub proof fn lemma_dec_val_prefix(s: Seq<char>, i: int)
    requires
        0 <= i <= s.len(),
    ensures
        dec_val(s) >= dec_val(s.subrange(0, i)),
    decreases s.len() - i,
{
    if i < s.len() {
        lemma_dec_val_prefix(s, i + 1);
        let a = s.subrange(0, i);
        let b = s.subrange(0, i + 1);
        assert(b.drop_last() =~= a);
        lemma_dec_val_nonneg(a);
        assert(dec_val(b) == dec_val(a) * 10 + digit_val(b.last()));
    } else {
        assert(s.subrange(0, i) =~= s);
    }
}

/// Appends the decimal rendering of `n` to `out`.
pub fn push_dec(out: &mut Vec<char>, n: u64)
    ensures
        final(out)@ == old(out)@ + dec_digits(n as int),
    decreases n,
{
    if n < 10 {
        let d: u64 = n;
        let c: char = if d == 0 {
            '0'
        } else if d == 1 {
            '1'
        } else if d == 2 {
            '2'
        } else if d == 3 {
            '3'
        } else if d == 4 {
            '4'
        } else if d == 5 {
            '5'
        } else if d == 6 {
            '6'
        } else if d == 7 {
            '7'
        } else if d == 8 {
            '8'
        } else {
            '9'
        };
        out.push(c);
        proof {
            assert(out@ =~= old(out)@ + dec_digits(n as int));
        }
    } else {
        push_dec(out, n / 10);
        let d: u64 = n % 10;
        let c: char = if d == 0 {
            '0'
        } else if d == 1 {
            '1'
        } else if d == 2 {
            '2'
        } else if d == 3 {
            '3'
        } else if d == 4 {
            '4'
        } else if d == 5 {
            '5'
        } else if d == 6 {
            '6'
        } else if d == 7 {
            '7'
        } else if d == 8 {
            '8'
        } else {
            '9'
        };
        out.push(c);
        proof {
            assert(out@ =~= old(out)@ + dec_digits(n as int));
        }
    }
}

/// Reads a decimal number: `Some` exactly when the whole text is a
/// non-empty digit string whose value fits in a `u64`.
pub fn parse_u64(s: &str) -> (r: Option<u64>)
    ensures
        match r {
            Some(n) => s@.len() > 0 && is_digits(s@) && dec_val(s@) == n as int,
            None => !(s@.len() > 0 && is_digits(s@) && dec_val(s@) <= u64::MAX as int),
        },
{
    let n = s.unicode_len();
    if n == 0 {
        return None;
    }
    let mut acc: u128 = 0;
    let mut i: usize = 0;
    while i < n
        invariant
            0 < n == s@.len(),
            i <= n,
            is_digits(s@.subrange(0, i as int)),
            acc as int == dec_val(s@.subrange(0, i as int)),
            acc <= u64::MAX as u128,
        decreases n - i,
    {
        let c = s.get_char(i);
        let d: u128 = if c == '0' {
            0
        } else if c == '1' {
            1
        } else if c == '2' {
            2
        } else if c == '3' {
            3
        } else if c == '4' {
            4
        } else if c == '5' {
            5
        } else if c == '6' {
            6
        } else if c == '7' {
            7
        } else if c == '8' {
            8
        } else if c == '9' {
            9
        } else {
            proof {
                assert(!is_digit(s@[i as int]));
            }
            return None;
        };
        proof {
            let b = s@.subrange(0, i as int + 1);
            assert(b.drop_last() =~= s@.subrange(0, i as int));
            assert(b.last() == s@[i as int]);
        }
        acc = acc * 10 + d;
        i = i + 1;
        if acc > u64::MAX as u128 {
            proof {
                if is_digits(s@) {
                    lemma_dec_val_prefix(s@, i as int);
                }
            }
            return None;
        }
    }
    proof {
        assert(s@.subrange(0, n as int) =~= s@);
    }
    Some(acc as u64)
}

/// Relies on `String`'s `FromIterator` impl: collecting characters
/// yields the string of exactly those characters.
#[verifier::external_body]
pub(crate) fn chars_to_string(v: &Vec<char>) -> (s: String)
    ensures
        s@ == v@,
{
    v.iter().collect()
}

} // verus!
