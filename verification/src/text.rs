//! Characters and strings: the few text operations that the FEN code needs.
use vstd::prelude::*;

verus! {

/// Appends `c` to `s` by `String::push`. Its contract is believed, not
/// proved: the characters of `s` afterwards are those before, then `c`, as
/// the documentation of `String::push` states.
#[verifier::external_body]
pub(crate) fn push_char(s: &mut String, c: char)
    ensures
        final(s)@ == old(s)@.push(c),
{
    s.push(c);
}

/// The characters of `s`, in order.
pub fn str_chars(s: &str) -> (r: Vec<char>)
    ensures
        r@ == s@,
{
    let mut r: Vec<char> = Vec::new();
    for c in it: s.chars()
        invariant
            r@ == it.seq().take(it.index() as int),
    {
        r.push(c);
    }
    r
}

/// `c` has the Unicode White_Space property (`char::is_whitespace`).
pub open spec fn is_ws(c: char) -> bool {
    let u = c as u32;
    ||| 0x09 <= u <= 0x0D
    ||| u == 0x20
    ||| u == 0x85
    ||| u == 0xA0
    ||| u == 0x1680
    ||| 0x2000 <= u <= 0x200A
    ||| u == 0x2028
    ||| u == 0x2029
    ||| u == 0x202F
    ||| u == 0x205F
    ||| u == 0x3000
}

/// Whether `c` is a white-space character.
pub fn is_whitespace(c: char) -> (r: bool)
    ensures
        r == is_ws(c),
{
    let u = c as u32;
    (0x09 <= u && u <= 0x0D) || u == 0x20 || u == 0x85 || u == 0xA0 || u == 0x1680 || (0x2000 <= u
        && u <= 0x200A) || u == 0x2028 || u == 0x2029 || u == 0x202F || u == 0x205F || u == 0x3000
}

/// The maximal runs of non-white-space characters of `s`, in order
/// (`str::split_whitespace`).
pub open spec fn words(s: Seq<char>) -> Seq<Seq<char>>
    decreases s.len(),
{
    if s.len() == 0 {
        seq![]
    } else {
        let w = words(s.drop_last());
        let c = s.last();
        if is_ws(c) {
            w
        } else if s.len() >= 2 && !is_ws(s[s.len() - 2]) {
            w.update(w.len() - 1, w.last().push(c))
        } else {
            w.push(seq![c])
        }
    }
}

/// The pieces of `s` between occurrences of `sep`, empty pieces included
/// (`str::split` on a character).
pub open spec fn split_on(s: Seq<char>, sep: char) -> Seq<Seq<char>>
    decreases s.len(),
{
    if s.len() == 0 {
        seq![seq![]]
    } else {
        let w = split_on(s.drop_last(), sep);
        if s.last() == sep {
            w.push(seq![])
        } else {
            w.update(w.len() - 1, w.last().push(s.last()))
        }
    }
}

/// A split of a sequence is never empty.
pub proof fn lemma_split_on_nonempty(s: Seq<char>, sep: char)
    ensures
        split_on(s, sep).len() >= 1,
    decreases s.len(),
{
    if s.len() > 0 {
        lemma_split_on_nonempty(s.drop_last(), sep);
    }
}

/// The words of `s`.
pub fn split_whitespace(s: &Vec<char>) -> (r: Vec<Vec<char>>)
    ensures
        r.deep_view() == words(s@),
{
    let mut out: Vec<Vec<char>> = Vec::new();
    let mut cur: Vec<char> = Vec::new();
    let mut i: usize = 0;
    while i < s.len()
        invariant
            i <= s.len(),
            (i > 0 && !is_ws(s@[i - 1])) ==> cur@.len() > 0 && words(s@.take(i as int))
                == out.deep_view().push(cur@),
            !(i > 0 && !is_ws(s@[i - 1])) ==> cur@.len() == 0 && words(s@.take(i as int))
                == out.deep_view(),
        decreases s.len() - i,
    {
        let c = s[i];
        let ghost p = s@.take(i as int);
        let ghost out0 = out.deep_view();
        let ghost cur0 = cur@;
        proof {
            assert(cur.deep_view() =~= cur@);
        }
        proof {
            assert(s@.take(i + 1).drop_last() == p);
            assert(s@.take(i + 1).last() == c);
            if i > 0 {
                assert(s@.take(i + 1)[i - 1] == s@[i - 1]);
            }
        }
        if is_whitespace(c) {
            if cur.len() > 0 {
                out.push(cur);
                cur = Vec::new();
                proof {
                    assert(out.deep_view() =~= out0.push(cur0));
                }
            }
        } else {
            cur.push(c);
            proof {
                let q = s@.take(i + 1);
                assert(!is_ws(q.last()));
                assert(words(q.drop_last()) == words(p));
                if i > 0 && !is_ws(s@[i - 1]) {
                    assert(q.len() >= 2 && !is_ws(q[q.len() - 2]));
                    let w = words(p);
                    assert(w == out0.push(cur0));
                    assert(words(q) == w.update(w.len() - 1, w.last().push(c)));
                    assert(words(q) =~= out.deep_view().push(cur@));
                } else {
                    assert(words(q) == words(p).push(seq![c]));
                    assert(cur@ =~= seq![c]);
                    assert(words(q) =~= out.deep_view().push(cur@));
                }
            }
        }
        i += 1;
    }
    if cur.len() > 0 {
        let ghost out0 = out.deep_view();
        let ghost cur0 = cur@;
        proof {
            assert(cur.deep_view() =~= cur@);
        }
        out.push(cur);
        proof {
            assert(out.deep_view() =~= out0.push(cur0));
        }
    }
    proof {
        assert(s@.take(s.len() as int) == s@);
    }
    out
}

/// The pieces of `s` between occurrences of `sep`.
pub fn split_char(s: &Vec<char>, sep: char) -> (r: Vec<Vec<char>>)
    ensures
        r.deep_view() == split_on(s@, sep),
{
    let mut out: Vec<Vec<char>> = Vec::new();
    let mut cur: Vec<char> = Vec::new();
    let mut i: usize = 0;
    while i < s.len()
        invariant
            i <= s.len(),
            split_on(s@.take(i as int), sep) == out.deep_view().push(cur@),
        decreases s.len() - i,
    {
        let c = s[i];
        let ghost p = s@.take(i as int);
        let ghost out0 = out.deep_view();
        let ghost cur0 = cur@;
        proof {
            assert(cur.deep_view() =~= cur@);
        }
        proof {
            assert(s@.take(i + 1).drop_last() == p);
            assert(s@.take(i + 1).last() == c);
        }
        if c == sep {
            out.push(cur);
            cur = Vec::new();
            proof {
                assert(out.deep_view() =~= out0.push(cur0));
                assert(split_on(s@.take(i + 1), sep) =~= out.deep_view().push(cur@));
            }
        } else {
            cur.push(c);
            proof {
                assert(split_on(s@.take(i + 1), sep) =~= out.deep_view().push(cur@));
            }
        }
        i += 1;
    }
    let ghost out0 = out.deep_view();
    let ghost cur0 = cur@;
    proof {
        assert(cur.deep_view() =~= cur@);
    }
    out.push(cur);
    proof {
        assert(out.deep_view() =~= out0.push(cur0));
        assert(s@.take(s.len() as int) == s@);
    }
    out
}

/// `c` is an ASCII decimal digit.
pub open spec fn is_digit(c: char) -> bool {
    48 <= c as u32 <= 57
}

/// Value of the digit `c`.
pub open spec fn digit_value(c: char) -> nat {
    (c as u32 - 48) as nat
}

/// The digit character of `d` (below 10).
pub open spec fn digit_char(d: nat) -> char {
    (48 + d) as char
}

/// Every character of `s` is a digit.
pub open spec fn all_digits(s: Seq<char>) -> bool {
    forall|i: int| 0 <= i < s.len() ==> is_digit(#[trigger] s[i])
}

/// The number that the digits `s` spell in base 10.
pub open spec fn digits_value(s: Seq<char>) -> nat
    decreases s.len(),
{
    if s.len() == 0 {
        0
    } else {
        digits_value(s.drop_last()) * 10 + digit_value(s.last())
    }
}

/// What `str::parse` gives for an unsigned integer type whose largest value
/// is `max`: an optional `+`, then one or more digits whose value is at most
/// `max`; anything else fails.
pub open spec fn parse_unsigned(s: Seq<char>, max: nat) -> Option<nat> {
    let d = if s.len() > 0 && s[0] == '+' {
        s.drop_first()
    } else {
        s
    };
    if d.len() > 0 && all_digits(d) && digits_value(d) <= max {
        Some(digits_value(d))
    } else {
        None
    }
}

/// The base-10 digits of `n`, without leading zeros.
pub open spec fn decimal(n: nat) -> Seq<char>
    decreases n,
{
    if n < 10 {
        seq![digit_char(n)]
    } else {
        decimal(n / 10).push(digit_char(n % 10))
    }
}

proof fn lemma_digits_value_prefix(s: Seq<char>, j: int)
    requires
        0 <= j <= s.len(),
        all_digits(s),
    ensures
        digits_value(s.take(j)) <= digits_value(s),
    decreases s.len(),
{
    if j < s.len() {
        assert(s.drop_last().take(j) == s.take(j));
        lemma_digits_value_prefix(s.drop_last(), j);
    } else {
        assert(s.take(j) == s);
    }
}

/// Parses the decimal number `s` as `str::parse` does for an unsigned type
/// whose largest value is `max`.
pub(crate) fn parse_unsigned_max(s: &Vec<char>, max: u32) -> (r: Option<u32>)
    requires
        max <= 65535,
    ensures
        match r {
            Some(v) => parse_unsigned(s@, max as nat) == Some(v as nat),
            None => parse_unsigned(s@, max as nat) is None,
        },
{
    let mut i: usize = 0;
    if s.len() > 0 && s[0] == '+' {
        i = 1;
    }
    let ghost d = s@.subrange(i as int, s.len() as int);
    let ghost dd = if s@.len() > 0 && s@[0] == '+' { s@.drop_first() } else { s@ };
    proof {
        if i == 1 {
            assert(d == s@.drop_first());
        } else {
            assert(d == s@);
        }
        assert(d == dd);
    }
    if i == s.len() {
        return None;
    }
    let start = i;
    let mut acc: u32 = 0;
    while i < s.len()
        invariant
            start <= i <= s.len(),
            d == s@.subrange(start as int, s.len() as int),
            d == dd,
            dd == (if s@.len() > 0 && s@[0] == '+' { s@.drop_first() } else { s@ }),
            all_digits(d.take(i - start)),
            acc as nat == digits_value(d.take(i - start)),
            acc <= max,
            max <= 65535,
        decreases s.len() - i,
    {
        let c = s[i];
        let u = c as u32;
        let ghost k = i - start;
        proof {
            assert(d.take(k + 1).drop_last() == d.take(k));
            assert(d.take(k + 1).last() == c);
        }
        if u < 48 || u > 57 {
            proof {
                assert(d[k] == c);
                assert(!is_digit(d[k]));
                assert(!all_digits(d));
            }
            return None;
        }
        acc = acc * 10 + (u - 48);
        if acc > max {
            proof {
                assert(all_digits(d.take(k + 1)));
                assert(acc == digits_value(d.take(k + 1)));
                if all_digits(d) {
                    lemma_digits_value_prefix(d, k + 1);
                }
            }
            return None;
        }
        i += 1;
    }
    proof {
        assert(d.take(d.len() as int) == d);
    }
    Some(acc)
}

/// Appends the decimal digits of `n` to `out`.
pub(crate) fn push_decimal(out: &mut String, n: u32)
    ensures
        final(out)@ == old(out)@ + decimal(n as nat),
    decreases n,
{
    if n >= 10 {
        push_decimal(out, n / 10);
    }
    push_char(out, char_of_digit(n % 10));
    proof {
        if n >= 10 {
            assert(old(out)@ + decimal(n as nat) =~= old(out)@ + decimal((n / 10) as nat) + seq![digit_char((n % 10) as nat)]);
        }
    }
}

/// The digit character of `d` (below 10).
fn char_of_digit(d: u32) -> (c: char)
    requires
        d < 10,
    ensures
        c == digit_char(d as nat),
{
    match d {
        0 => '0',
        1 => '1',
        2 => '2',
        3 => '3',
        4 => '4',
        5 => '5',
        6 => '6',
        7 => '7',
        8 => '8',
        _ => '9',
    }
}

/// No character of `s` is white space.
pub open spec fn no_ws(s: Seq<char>) -> bool {
    forall|i: int| 0 <= i < s.len() ==> !is_ws(#[trigger] s[i])
}

/// Appending white space adds no word.
pub proof fn lemma_words_push_ws(t: Seq<char>, c: char)
    requires
        is_ws(c),
    ensures
        words(t.push(c)) == words(t),
{
    assert(t.push(c).drop_last() == t);
}

/// After white space (or at the start), a run of non-white-space
/// characters is one more word.
pub proof fn lemma_words_push_word(t: Seq<char>, w: Seq<char>)
    requires
        w.len() > 0,
        no_ws(w),
        t.len() == 0 || is_ws(t.last()),
    ensures
        words(t + w) == words(t).push(w),
    decreases w.len(),
{
    let tw = t + w;
    if w.len() == 1 {
        assert(tw.drop_last() == t);
        assert(tw.last() == w[0]);
        assert(w =~= seq![w[0]]);
    } else {
        let w1 = w.drop_last();
        lemma_words_push_word(t, w1);
        assert(tw.drop_last() == t + w1);
        assert(tw.last() == w.last());
        assert(tw[tw.len() - 2] == w1.last());
        assert(!is_ws(w1.last()));
        assert(w1.push(w.last()) == w);
    }
}

/// The digits of a number are digits, not white space, and not empty.
pub proof fn lemma_decimal_digits(n: nat)
    ensures
        decimal(n).len() > 0,
        all_digits(decimal(n)),
        no_ws(decimal(n)),
        digits_value(decimal(n)) == n,
        n < 10 ==> decimal(n) == seq![digit_char(n)],
    decreases n,
{
    if n >= 10 {
        lemma_decimal_digits(n / 10);
        let d = decimal(n);
        assert(d.drop_last() == decimal(n / 10));
        assert(d.last() == digit_char(n % 10));
        assert(digit_value(digit_char(n % 10)) == n % 10);
        assert(digits_value(d) == digits_value(decimal(n / 10)) * 10 + n % 10);
        assert((n / 10) * 10 + n % 10 == n);
    } else {
        let d = decimal(n);
        assert(d.drop_last() =~= Seq::<char>::empty());
        assert(digit_value(digit_char(n)) == n);
        assert(digits_value(d.drop_last()) == 0);
        assert(digits_value(d) == n);
        assert forall|i: int| 0 <= i < d.len() implies is_digit(#[trigger] d[i]) && !is_ws(d[i]) by {
            if i < d.len() - 1 {
                assert(d[i] == decimal(n / 10)[i]);
            }
        }
    }
}

/// Reading back the digits of `n` gives `n`, when it is at most `max`.
pub proof fn lemma_parse_decimal(n: nat, max: nat)
    requires
        n <= max,
    ensures
        parse_unsigned(decimal(n), max) == Some(n),
{
    lemma_decimal_digits(n);
    assert(is_digit(decimal(n)[0]));
}

/// Text without the separator is a single piece.
pub proof fn lemma_split_no_sep(x: Seq<char>, sep: char)
    requires
        forall|i: int| 0 <= i < x.len() ==> #[trigger] x[i] != sep,
    ensures
        split_on(x, sep) == seq![x],
    decreases x.len(),
{
    if x.len() > 0 {
        lemma_split_no_sep(x.drop_last(), sep);
        assert(x.drop_last().push(x.last()) == x);
        assert(x.last() != sep);
        let w = split_on(x.drop_last(), sep);
        assert(w.update(w.len() - 1, w.last().push(x.last())) =~= seq![x]);
    } else {
        assert(x =~= Seq::<char>::empty());
    }
}

/// Splitting around one separator splits each side on its own.
pub proof fn lemma_split_concat(x: Seq<char>, y: Seq<char>, sep: char)
    ensures
        split_on(x + seq![sep] + y, sep) == split_on(x, sep) + split_on(y, sep),
    decreases y.len(),
{
    let z = x + seq![sep] + y;
    if y.len() == 0 {
        assert(z == x.push(sep));
        assert(z.drop_last() == x);
        assert(split_on(x, sep) + split_on(y, sep) =~= split_on(x, sep).push(seq![]));
    } else {
        let y1 = y.drop_last();
        lemma_split_concat(x, y1, sep);
        lemma_split_on_nonempty(y1, sep);
        assert(z.drop_last() == x + seq![sep] + y1);
        assert(z.last() == y.last());
        let a = split_on(x, sep);
        let b = split_on(y1, sep);
        if y.last() == sep {
            assert((a + b).push(seq![]) =~= a + b.push(seq![]));
        } else {
            assert((a + b).update((a + b).len() - 1, (a + b).last().push(y.last())) =~= a + b.update(
                b.len() - 1,
                b.last().push(y.last()),
            ));
        }
    }
}

/// The pieces `ws` joined with one `sep` between each two.
pub open spec fn join_on(ws: Seq<Seq<char>>, sep: char) -> Seq<char>
    decreases ws.len(),
{
    if ws.len() == 0 {
        seq![]
    } else if ws.len() == 1 {
        ws[0]
    } else {
        join_on(ws.drop_last(), sep) + seq![sep] + ws.last()
    }
}

proof fn lemma_join_extend_last(w: Seq<Seq<char>>, sep: char, c: char)
    requires
        w.len() >= 1,
    ensures
        join_on(w.update(w.len() - 1, w.last().push(c)), sep) == join_on(w, sep).push(c),
{
    let u = w.update(w.len() - 1, w.last().push(c));
    if w.len() == 1 {
        assert(u[0] == w[0].push(c));
    } else {
        assert(u.drop_last() =~= w.drop_last());
        assert(u.last() == w.last().push(c));
        assert(join_on(u, sep) =~= join_on(w, sep).push(c));
    }
}

/// Joining the pieces of a split gives the text back.
pub proof fn lemma_join_split(s: Seq<char>, sep: char)
    ensures
        join_on(split_on(s, sep), sep) == s,
    decreases s.len(),
{
    if s.len() == 0 {
        assert(join_on(seq![seq![]], sep) == Seq::<char>::empty());
        assert(s =~= Seq::<char>::empty());
    } else {
        let t = s.drop_last();
        lemma_join_split(t, sep);
        lemma_split_on_nonempty(t, sep);
        let w = split_on(t, sep);
        if s.last() == sep {
            let u = w.push(seq![]);
            assert(u.drop_last() =~= w);
            assert(join_on(u, sep) =~= t + seq![sep] + seq![]);
            assert(t.push(sep) =~= s);
        } else {
            lemma_join_extend_last(w, sep, s.last());
            assert(t.push(s.last()) =~= s);
        }
    }
}

/// Digits without a leading zero (a lone zero aside): the form in which
/// `decimal` writes a number.
pub open spec fn plain_digits(t: Seq<char>) -> bool {
    &&& t.len() > 0
    &&& all_digits(t)
    &&& (t.len() == 1 || t[0] != '0')
}

pub proof fn lemma_digit_char_value(c: char)
    requires
        is_digit(c),
    ensures
        digit_char(digit_value(c)) == c,
        digit_value(c) < 10,
{
    assert(c == '0' || c == '1' || c == '2' || c == '3' || c == '4' || c == '5' || c == '6' || c == '7'
        || c == '8' || c == '9');
}

/// Digits without a leading zero are the decimal text of their value.
pub proof fn lemma_decimal_of_digits(t: Seq<char>)
    requires
        plain_digits(t),
    ensures
        decimal(digits_value(t)) == t,
    decreases t.len(),
{
    let c = t.last();
    assert(is_digit(t[t.len() - 1]));
    lemma_digit_char_value(c);
    let d = digit_value(c);
    if t.len() == 1 {
        let e = t.drop_last();
        assert(e.len() == 0);
        assert(digits_value(e) == 0);
        assert(digits_value(t) == d);
        assert(t =~= seq![digit_char(d)]);
    } else {
        let u = t.drop_last();
        assert(u[0] == t[0]);
        assert forall|i: int| 0 <= i < u.len() implies is_digit(#[trigger] u[i]) by {
            assert(u[i] == t[i]);
        }
        lemma_decimal_of_digits(u);
        let v = digits_value(u);
        lemma_digits_value_prefix(u, 1);
        let u1 = u.take(1);
        assert(u1.drop_last() =~= Seq::<char>::empty());
        assert(u1.last() == t[0]);
        assert(digit_value(t[0]) >= 1) by {
            assert(is_digit(t[0]));
            lemma_digit_char_value(t[0]);
        }
        assert(v >= 1);
        let n = digits_value(t);
        assert(n == v * 10 + d);
        assert(n / 10 == v && n % 10 == d) by (nonlinear_arith)
            requires
                n == v * 10 + d,
                d < 10,
        ;
        assert(n >= 10);
        assert(decimal(n) == decimal(v).push(digit_char(d)));
        assert(u.push(c) =~= t);
    }
}

} // verus!