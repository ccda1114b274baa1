//! Text helpers shared by the printers and parsers.

use crate::integer::{digit_char, int_decimal, nat_decimal, Integer};
use vstd::prelude::*;

verus! {

/// The characters of `v` as a `String`, collected by `String`'s
/// `FromIterator<&char>`.
#[verifier::external_body]
pub(crate) fn chars_to_string(v: &Vec<char>) -> (r: String)
    ensures
        r@ == v@,
{
    v.iter().collect()
}

/// The characters of `s`, collected from `str::chars`.
#[verifier::external_body]
pub(crate) fn string_chars(s: &str) -> (r: Vec<char>)
    ensures
        r@ == s@,
{
    s.chars().collect()
}

/// Appends the characters of `s` to `out`.
pub fn push_str(out: &mut Vec<char>, s: &str)
    ensures
        final(out)@ == old(out)@ + s@,
{
    let cs = string_chars(s);
    crate::piet_interpreter::append_chars(out, &cs);
}

/// Appends the decimal digits of `n`.
pub fn push_usize_decimal(out: &mut Vec<char>, n: usize)
    ensures
        final(out)@ == old(out)@ + nat_decimal(n as nat),
    decreases n,
{
    if n >= 10 {
        push_usize_decimal(out, n / 10);
    }
    let d: u8 = (n % 10) as u8;
    let c: char = (48u8 + d) as char;
    assert(c == digit_char((n % 10) as nat));
    out.push(c);
    assert(nat_decimal(n as nat) == (if n < 10 {
        seq![digit_char(n as nat)]
    } else {
        nat_decimal((n / 10) as nat).push(digit_char((n % 10) as nat))
    }));
}

/// Comma-separated decimal values, as `{:?}` lists their elements.
pub open spec fn decimal_list(vs: Seq<int>) -> Seq<char>
    decreases vs.len(),
{
    if vs.len() == 0 {
        seq![]
    } else if vs.len() == 1 {
        int_decimal(vs[0])
    } else {
        decimal_list(vs.drop_last()) + seq![',', ' '] + int_decimal(vs.last())
    }
}

/// Appends `[v0, v1, ...]` for the values of `vs`.
pub fn push_decimal_list(out: &mut Vec<char>, vs: &Vec<Integer>)
    ensures
        final(out)@ == old(out)@ + seq!['['] + decimal_list(vs@.map_values(|x: Integer| x@)) + seq![']'],
{
    let ghost vals = vs@.map_values(|x: Integer| x@);
    out.push('[');
    let ghost start = out@;
    let mut i: usize = 0;
    while i < vs.len()
        invariant
            i <= vs@.len(),
            vals == vs@.map_values(|x: Integer| x@),
            out@ == start + decimal_list(vals.take(i as int)),
        decreases vs@.len() - i,
    {
        if i > 0 {
            out.push(',');
            out.push(' ');
        }
        let d = vs[i].to_decimal_chars();
        crate::piet_interpreter::append_chars(out, &d);
        proof {
            let t = vals.take(i + 1);
            assert(t.drop_last() =~= vals.take(i as int));
            if i == 0 {
                assert(vals.take(0) =~= Seq::<int>::empty());
            }
        }
        i = i + 1;
    }
    assert(vals.take(vs@.len() as int) =~= vals);
    out.push(']');
}

} // verus!

verus! {

/// The lines of `t`: the pieces between newline characters (the last piece
/// is what follows the last newline, possibly empty).
pub open spec fn split_lines(t: Seq<char>) -> Seq<Seq<char>>
    decreases t.len(),
{
    if t.len() == 0 {
        seq![seq![]]
    } else {
        let p = split_lines(t.drop_last());
        if t.last() == '\n' {
            p.push(seq![])
        } else {
            p.update(p.len() - 1, p.last().push(t.last()))
        }
    }
}

/// There is always at least one line.
pub proof fn lemma_split_lines_nonempty(t: Seq<char>)
    ensures
        split_lines(t).len() >= 1,
    decreases t.len(),
{
    if t.len() > 0 {
        lemma_split_lines_nonempty(t.drop_last());
    }
}

/// Lines as character sequences.
pub open spec fn lines_view(v: Seq<Vec<char>>) -> Seq<Seq<char>> {
    v.map_values(|l: Vec<char>| l@)
}

/// Splits `t` into its lines.
pub fn lines_of(t: &Vec<char>) -> (r: Vec<Vec<char>>)
    ensures
        lines_view(r@) == split_lines(t@),
{
    let mut done: Vec<Vec<char>> = Vec::new();
    let mut cur: Vec<char> = Vec::new();
    let mut i: usize = 0;
    while i < t.len()
        invariant
            i <= t@.len(),
            lines_view(done@).push(cur@) == split_lines(t@.take(i as int)),
        decreases t@.len() - i,
    {
        let ghost before = t@.take(i as int);
        proof {
            lemma_split_lines_nonempty(before);
            assert(t@.take(i + 1).drop_last() =~= before);
        }
        let c = t[i];
        if c == '\n' {
            let ghost d0 = done@;
            let line = cur;
            done.push(line);
            cur = Vec::new();
            assert(lines_view(done@).push(cur@) =~= lines_view(d0).push(line@).push(seq![]));
        } else {
            let ghost c0 = cur@;
            cur.push(c);
            assert(lines_view(done@).push(cur@) =~= lines_view(done@).push(c0).update(
                lines_view(done@).len() as int,
                c0.push(c),
            ));
        }
        i = i + 1;
    }
    assert(t@.take(i as int) =~= t@);
    let ghost d0 = done@;
    done.push(cur);
    assert(lines_view(done@) =~= lines_view(d0).push(cur@));
    done
}

/// Whether `c` separates words.
pub open spec fn is_blank(c: char) -> bool {
    c == ' ' || c == '\t' || c == '\r'
}

/// The finished words and the word in progress after reading `l`.
pub open spec fn word_state(l: Seq<char>) -> (Seq<Seq<char>>, Seq<char>)
    decreases l.len(),
{
    if l.len() == 0 {
        (seq![], seq![])
    } else {
        let (ws, cur) = word_state(l.drop_last());
        let c = l.last();
        if is_blank(c) {
            if cur.len() > 0 {
                (ws.push(cur), seq![])
            } else {
                (ws, cur)
            }
        } else {
            (ws, cur.push(c))
        }
    }
}

/// The words of a line: its maximal runs of non-blank characters.
pub open spec fn split_words(l: Seq<char>) -> Seq<Seq<char>> {
    let (ws, cur) = word_state(l);
    if cur.len() > 0 {
        ws.push(cur)
    } else {
        ws
    }
}

/// Splits a line into its words.
pub fn words_of(l: &Vec<char>) -> (r: Vec<Vec<char>>)
    ensures
        lines_view(r@) == split_words(l@),
{
    let mut done: Vec<Vec<char>> = Vec::new();
    let mut cur: Vec<char> = Vec::new();
    let mut i: usize = 0;
    while i < l.len()
        invariant
            i <= l@.len(),
            (lines_view(done@), cur@) == word_state(l@.take(i as int)),
        decreases l@.len() - i,
    {
        proof {
            assert(l@.take(i + 1).drop_last() =~= l@.take(i as int));
        }
        let c = l[i];
        if c == ' ' || c == '\t' || c == '\r' {
            if cur.len() > 0 {
                let ghost d0 = done@;
                let w = cur;
                done.push(w);
                cur = Vec::new();
                assert(lines_view(done@) =~= lines_view(d0).push(w@));
                assert(cur@ =~= Seq::<char>::empty());
            }
        } else {
            cur.push(c);
        }
        i = i + 1;
    }
    assert(l@.take(i as int) =~= l@);
    if cur.len() > 0 {
        let ghost d0 = done@;
        done.push(cur);
        assert(lines_view(done@) =~= lines_view(d0).push(cur@));
    }
    done
}

/// Whether two character sequences are equal.
pub fn chars_eq(a: &Vec<char>, b: &Vec<char>) -> (r: bool)
    ensures
        r == (a@ == b@),
{
    if a.len() != b.len() {
        return false;
    }
    let mut i: usize = 0;
    while i < a.len()
        invariant
            a@.len() == b@.len(),
            i <= a@.len(),
            forall|k: int| 0 <= k < i ==> a@[k] == b@[k],
        decreases a@.len() - i,
    {
        if a[i] != b[i] {
            return false;
        }
        i = i + 1;
    }
    assert(a@ =~= b@);
    true
}

/// Whether the word `w` is the text `s`.
pub fn word_is(w: &Vec<char>, s: &str) -> (r: bool)
    ensures
        r == (w@ == s@),
{
    let t = string_chars(s);
    chars_eq(w, &t)
}

/// Value of a sequence of decimal digit characters.
pub open spec fn chars_value(d: Seq<char>) -> int
    decreases d.len(),
{
    if d.len() == 0 {
        0
    } else {
        10 * chars_value(d.drop_last()) + (d.last() as int - 48)
    }
}

/// Whether every character of `d` is a decimal digit.
pub open spec fn all_digits(d: Seq<char>) -> bool {
    forall|k: int| 0 <= k < d.len() ==> '0' <= #[trigger] d[k] <= '9'
}

/// The integer a word denotes: an optional `-` followed by one or more
/// decimal digits.
pub open spec fn word_integer(w: Seq<char>) -> Option<int> {
    if w.len() > 0 && w[0] == '-' {
        let d = w.skip(1);
        if d.len() > 0 && all_digits(d) {
            Some(-chars_value(d))
        } else {
            None
        }
    } else if w.len() > 0 && all_digits(w) {
        Some(chars_value(w))
    } else {
        None
    }
}

/// Reads the integer a word denotes.
pub fn parse_integer(w: &Vec<char>) -> (r: Option<Integer>)
    ensures
        r is Some <==> word_integer(w@) is Some,
        r matches Some(v) ==> Some(v@) == word_integer(w@),
{
    let n = w.len();
    if n == 0 {
        return None;
    }
    let negative = w[0] == '-';
    let start: usize = if negative { 1 } else { 0 };
    if start >= n {
        return None;
    }
    let ghost d = w@.skip(start as int);
    let mut value = Integer::from_i64(0);
    let ten = Integer::from_i64(10);
    let mut i: usize = start;
    while i < n
        invariant
            n == w@.len(),
            n > 0,
            negative == (w@[0] == '-'),
            start == (if negative { 1usize } else { 0usize }),
            start <= i <= n,
            d == w@.skip(start as int),
            ten@ == 10,
            all_digits(d.take(i - start)),
            value@ == chars_value(d.take(i - start)),
        decreases n - i,
    {
        let c = w[i];
        if !('0' <= c && c <= '9') {
            assert(!all_digits(d)) by {
                assert(d[i - start] == c);
            }
            if !negative {
                assert(d =~= w@);
            }
            return None;
        }
        let digit = Integer::from_i64((c as u32 - 48) as i64);
        value = value.mul(&ten).add(&digit);
        proof {
            let t = d.take(i + 1 - start);
            assert(t.drop_last() =~= d.take(i - start));
            assert(t.last() == c);
        }
        i = i + 1;
    }
    assert(d.take(i - start) =~= d);
    if negative {
        let zero = Integer::from_i64(0);
        Some(zero.sub(&value))
    } else {
        assert(d =~= w@);
        Some(value)
    }
}

} // verus!
