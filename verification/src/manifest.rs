//! What a weight file that was written gives back when it is read: the manifest's words, lines and
//! numbers, and every weight out of its bytes.
use vstd::arithmetic::power::*;
use vstd::prelude::*;

use crate::float::F32;
use crate::half::widen;
use crate::text::{
    decimal, digit_char, digit_value, digits_value, first_of, is_digit, is_white, last_of,
    lines_spec, parse_usize_spec, rsplit_once_spec, second_word_spec, split_spec, starts_with_spec,
    trim_end_spec, trim_spec, trim_start_spec, word_len,
};
use crate::weights::{
    blob_spec, dequantised, dtype_spec, entry_spec, head_line, is_comment, is_int8, last_number,
    law_a_float_arena_is_its_blob, law_int8_tensors_are_recovered, leaves_alone, line_spec,
    lines_loaded, load_spec, parse_all, parse_shape, Dtype, EntryView, TensorView,
};

verus! {

// ------------------------------------------------------------------ numbers

proof fn lemma_digit(k: nat)
    requires
        k < 10,
    ensures
        is_digit(digit_char(k)),
        digit_value(digit_char(k)) == k,
{
}

/// A number in decimal is made of digits, which give the number back.
pub proof fn law_decimals_are_digits(n: nat)
    ensures
        decimal(n).len() > 0,
        digits_value(decimal(n)) == n,
        forall|i: int| 0 <= i < decimal(n).len() ==> is_digit(#[trigger] decimal(n)[i]),
    decreases n,
{
    if n < 10 {
        lemma_digit(n);
        assert(decimal(n).drop_last() =~= Seq::empty());
        reveal_with_fuel(digits_value, 2);
    } else {
        law_decimals_are_digits(n / 10);
        lemma_digit(n % 10);
        assert(decimal(n).drop_last() =~= decimal(n / 10));
    }
}

/// A number that was written in decimal is read back, with a plus sign or without.
pub proof fn law_numbers_read_back(n: usize)
    ensures
        parse_usize_spec(decimal(n as nat)) == Some(n),
        parse_usize_spec(seq!['+'] + decimal(n as nat)) == Some(n),
{
    law_decimals_are_digits(n as nat);
    let d = decimal(n as nat);
    assert(is_digit(d[0]));
    assert((seq!['+'] + d).skip(1) =~= d);
}

/// Whether `c` does not occur in `s`.
pub open spec fn lacks(s: Seq<char>, c: char) -> bool {
    forall|i: int| 0 <= i < s.len() ==> #[trigger] s[i] != c
}

proof fn lemma_decimals_lack(n: nat, c: char)
    requires
        !is_digit(c),
    ensures
        lacks(decimal(n), c),
{
    law_decimals_are_digits(n);
    assert forall|i: int| 0 <= i < decimal(n).len() implies #[trigger] decimal(n)[i] != c by {
        assert(is_digit(decimal(n)[i]));
    }
}

/// What is read as a number, if it does not start with a plus sign, is digits and worth that number; a
/// plus sign changes nothing.
pub proof fn law_only_numbers_are_read(s: Seq<char>)
    requires
        s.len() > 0,
        s[0] != '+',
    ensures
        parse_usize_spec(s) matches Some(n) ==> digits_value(s) == n && forall|i: int|
            0 <= i < s.len() ==> '0' <= #[trigger] s[i] <= '9',
        parse_usize_spec(s) is None ==> digits_value(s) > usize::MAX || exists|i: int|
            0 <= i < s.len() && !('0' <= #[trigger] s[i] <= '9'),
        parse_usize_spec(seq!['+'] + s) == parse_usize_spec(s),
        parse_usize_spec(Seq::empty()) is None,
        parse_usize_spec(seq!['+']) is None,
{
    assert(seq!['+'].skip(1) =~= Seq::empty());
    if parse_usize_spec(s) is None && digits_value(s) <= usize::MAX {
        let i = choose|i: int| 0 <= i < s.len() && !is_digit(#[trigger] s[i]);
        assert(!('0' <= s[i] <= '9'));
    }
    assert((seq!['+'] + s).skip(1) =~= s);
    if parse_usize_spec(s) is Some {
        assert forall|i: int| 0 <= i < s.len() implies '0' <= #[trigger] s[i] <= '9' by {
            assert(is_digit(s[i]));
        }
    }
}

/// Digits before others weigh ten times as much for every one of these; a digit by itself is worth its
/// distance from '0'.
pub proof fn law_digits_weigh_tens(a: Seq<char>, b: Seq<char>, c: char)
    requires
        '0' <= c <= '9',
    ensures
        digits_value(a + b) == digits_value(a) * pow(10, b.len()) + digits_value(b),
        digits_value(seq![c]) == c as int - '0' as int,
    decreases b.len(),
{
    lemma_pow0(10);
    if b.len() == 0 {
        assert(a + b =~= a);
        assert(digits_value(b) == 0);
        assert(digits_value(a) * 1 == digits_value(a));
    } else {
        let d = b.drop_last();
        assert((a + b).drop_last() =~= a + d);
        assert((a + b).last() == b.last());
        law_digits_weigh_tens(a, d, c);
        let (x, p, y, k) = (
            digits_value(a) as int,
            pow(10, d.len()),
            digits_value(d) as int,
            digit_value(b.last()) as int,
        );
        assert(digits_value(a + b) == 10 * digits_value(a + d) + k);
        assert(digits_value(b) == 10 * y + k);
        assert(pow(10, b.len()) == 10 * p) by {
            reveal(pow);
        }
        assert(10 * (x * p + y) + k == x * (10 * p) + (10 * y + k)) by (nonlinear_arith);
    }
    assert(digits_value(seq![c]) == c as int - '0' as int) by {
        reveal_with_fuel(digits_value, 2);
        assert(seq![c].drop_last() =~= Seq::empty());
    }
}

// ------------------------------------------------------------------ splitting

proof fn lemma_last_of(a: Seq<char>, c: char, b: Seq<char>)
    requires
        lacks(b, c),
    ensures
        last_of(a + seq![c] + b, c) == a.len(),
    decreases b.len(),
{
    let s = a + seq![c] + b;
    if b.len() == 0 {
        assert(s.last() == c);
    } else {
        assert(s.last() == b.last());
        assert(s.drop_last() =~= a + seq![c] + b.drop_last());
        lemma_last_of(a, c, b.drop_last());
    }
}

/// What stands before and behind the last `c` is told apart.
pub proof fn law_the_last_mark_splits(a: Seq<char>, c: char, b: Seq<char>)
    requires
        lacks(b, c),
    ensures
        rsplit_once_spec(a + seq![c] + b, c) == Some((a, b)),
{
    lemma_last_of(a, c, b);
    let s = a + seq![c] + b;
    assert(s.take(a.len() as int) =~= a);
    assert(s.skip(a.len() as int + 1) =~= b);
}

/// Without a mark nothing is split.
pub proof fn law_no_mark_splits_nothing(s: Seq<char>, c: char)
    requires
        lacks(s, c),
    ensures
        rsplit_once_spec(s, c) is None,
    decreases s.len(),
{
    if s.len() > 0 {
        assert(s.drop_last().len() < s.len());
        assert forall|i: int| 0 <= i < s.drop_last().len() implies #[trigger] s.drop_last()[i]
            != c by {
            assert(s[i] != c);
        }
        law_no_mark_splits_nothing(s.drop_last(), c);
        assert(s.last() != c);
    }
}

proof fn lemma_first_of(a: Seq<char>, c: char, b: Seq<char>)
    requires
        lacks(a, c),
    ensures
        first_of(a + seq![c] + b, c) == a.len(),
        first_of(a, c) == a.len(),
    decreases a.len(),
{
    let s = a + seq![c] + b;
    if a.len() > 0 {
        assert(a[0] != c);
        assert(s[0] == a[0]);
        assert(s.skip(1) =~= a.skip(1) + seq![c] + b);
        assert forall|i: int| 0 <= i < a.skip(1).len() implies #[trigger] a.skip(1)[i] != c by {
            assert(a[i + 1] != c);
        }
        lemma_first_of(a.skip(1), c, b);
    } else {
        assert(s[0] == c);
    }
}

/// Pieces with a `c` between two.
pub open spec fn joined(ps: Seq<Seq<char>>, c: char) -> Seq<char>
    decreases ps.len(),
{
    if ps.len() == 0 {
        Seq::empty()
    } else if ps.len() == 1 {
        ps[0]
    } else {
        ps[0] + seq![c] + joined(ps.skip(1), c)
    }
}

/// Pieces that were joined with a mark that none of them holds are split into the same pieces.
pub proof fn law_splitting_undoes_joining(ps: Seq<Seq<char>>, c: char)
    requires
        ps.len() > 0,
        forall|i: int| 0 <= i < ps.len() ==> lacks(#[trigger] ps[i], c),
    ensures
        split_spec(joined(ps, c), c) == ps,
    decreases ps.len(),
{
    let s = joined(ps, c);
    assert(lacks(ps[0], c));
    if ps.len() == 1 {
        lemma_first_of(s, c, Seq::empty());
        assert(split_spec(s, c) =~= ps);
    } else {
        let rest = joined(ps.skip(1), c);
        lemma_first_of(ps[0], c, rest);
        assert(s.take(ps[0].len() as int) =~= ps[0]);
        assert(s.skip(ps[0].len() as int + 1) =~= rest);
        assert forall|i: int| 0 <= i < ps.skip(1).len() implies lacks(#[trigger] ps.skip(1)[i], c) by {
            assert(lacks(ps[i + 1], c));
        }
        law_splitting_undoes_joining(ps.skip(1), c);
        assert(split_spec(s, c) =~= seq![ps[0]] + ps.skip(1));
        assert(seq![ps[0]] + ps.skip(1) =~= ps);
    }
}

// ------------------------------------------------------------------ lines

/// Lines, each with its line ending.
pub open spec fn text_of_lines(ls: Seq<Seq<char>>) -> Seq<char>
    decreases ls.len(),
{
    if ls.len() == 0 {
        Seq::empty()
    } else {
        ls[0] + seq!['\n'] + text_of_lines(ls.skip(1))
    }
}

/// Whether a text can be one line.
pub open spec fn is_line(l: Seq<char>) -> bool {
    lacks(l, '\n') && (l.len() == 0 || l.last() != '\r')
}

/// Lines that were written one below the other are read back in order, also where the last one has no
/// ending.
pub proof fn law_lines_read_back(ls: Seq<Seq<char>>, last: Seq<char>)
    requires
        forall|i: int| 0 <= i < ls.len() ==> is_line(#[trigger] ls[i]),
        lacks(last, '\n'),
    ensures
        lines_spec(text_of_lines(ls)) == ls,
        last.len() > 0 ==> lines_spec(text_of_lines(ls) + last) == ls.push(last),
    decreases ls.len(),
{
    if ls.len() == 0 {
        lemma_first_of(last, '\n', Seq::empty());
        assert(text_of_lines(ls) + last =~= last);
        assert(ls.push(last) =~= seq![last]);
    } else {
        assert(is_line(ls[0]));
        assert forall|i: int| 0 <= i < ls.skip(1).len() implies is_line(#[trigger] ls.skip(1)[i]) by {
            assert(is_line(ls[i + 1]));
        }
        law_lines_read_back(ls.skip(1), last);
        let rest = text_of_lines(ls.skip(1));
        let s = text_of_lines(ls);
        let n = ls[0].len() as int;
        lemma_first_of(ls[0], '\n', rest);
        assert(s.take(n) =~= ls[0] && s.skip(n + 1) =~= rest);
        assert(lines_spec(s) =~= seq![ls[0]] + ls.skip(1));
        assert(seq![ls[0]] + ls.skip(1) =~= ls);
        let u = s + last;
        assert(u =~= ls[0] + seq!['\n'] + (rest + last));
        lemma_first_of(ls[0], '\n', rest + last);
        assert(u.take(n) =~= ls[0] && u.skip(n + 1) =~= rest + last);
        if last.len() > 0 {
            assert(lines_spec(u) =~= seq![ls[0]] + ls.skip(1).push(last));
            assert(seq![ls[0]] + ls.skip(1).push(last) =~= ls.push(last));
        }
    }
}

/// A carriage return before the line ending is not part of the line.
pub proof fn law_carriage_returns_are_dropped(l: Seq<char>, rest: Seq<char>)
    requires
        lacks(l, '\n'),
    ensures
        lines_spec(l + seq!['\r', '\n'] + rest) == seq![l] + lines_spec(rest),
{
    let k = l + seq!['\r'];
    assert forall|i: int| 0 <= i < k.len() implies #[trigger] k[i] != '\n' by {
        if i < l.len() {
            assert(l[i] != '\n');
        }
    }
    lemma_first_of(k, '\n', rest);
    let s = l + seq!['\r', '\n'] + rest;
    assert(s =~= k + seq!['\n'] + rest);
    assert(s.take(k.len() as int) =~= k);
    assert(s.skip(k.len() as int + 1) =~= rest);
    assert(k.drop_last() =~= l);
}

// ------------------------------------------------------------------ white space

/// Whether a text is nothing but white space.
pub open spec fn is_blank(s: Seq<char>) -> bool {
    forall|i: int| 0 <= i < s.len() ==> is_white(#[trigger] s[i])
}

/// Whether a text has no white space at its ends.
pub open spec fn is_trim(s: Seq<char>) -> bool {
    s.len() > 0 && !is_white(s[0]) && !is_white(s.last())
}

proof fn lemma_trim_start(a: Seq<char>, s: Seq<char>)
    requires
        is_blank(a),
        s.len() == 0 || !is_white(s[0]),
    ensures
        trim_start_spec(a + s) == s,
    decreases a.len(),
{
    if a.len() > 0 {
        let t = a + s;
        assert(is_white(a[0]));
        assert(t.skip(1) =~= a.skip(1) + s);
        assert forall|i: int| 0 <= i < a.skip(1).len() implies is_white(#[trigger] a.skip(1)[i]) by {
            assert(is_white(a[i + 1]));
        }
        lemma_trim_start(a.skip(1), s);
    } else {
        assert(a + s =~= s);
    }
}

proof fn lemma_trim_end(s: Seq<char>, b: Seq<char>)
    requires
        is_blank(b),
        s.len() == 0 || !is_white(s.last()),
    ensures
        trim_end_spec(s + b) == s,
    decreases b.len(),
{
    if b.len() > 0 {
        let t = s + b;
        assert(t.last() == b.last());
        assert(is_white(b[b.len() - 1]));
        assert(t.drop_last() =~= s + b.drop_last());
        assert forall|i: int| 0 <= i < b.drop_last().len() implies is_white(
            #[trigger] b.drop_last()[i],
        ) by {
            assert(is_white(b[i]));
        }
        lemma_trim_end(s, b.drop_last());
    } else {
        assert(s + b =~= s);
    }
}

/// White space around a text is taken off, and nothing else.
pub proof fn law_trimming_takes_off_the_blanks(a: Seq<char>, s: Seq<char>, b: Seq<char>)
    requires
        is_blank(a),
        is_blank(b),
        is_trim(s),
    ensures
        trim_spec(a + s + b) == s,
        trim_start_spec(a + s + b) == s + b,
{
    assert(a + s + b =~= a + (s + b));
    lemma_trim_start(a, s + b);
    lemma_trim_end(s, b);
}

/// Nothing is left of blanks.
pub proof fn law_blanks_trim_to_nothing(a: Seq<char>)
    requires
        is_blank(a),
    ensures
        trim_spec(a).len() == 0,
        trim_start_spec(a).len() == 0,
{
    assert(a + Seq::empty() =~= a);
    lemma_trim_start(a, Seq::empty());
}

proof fn lemma_word_len(w: Seq<char>, rest: Seq<char>)
    requires
        forall|i: int| 0 <= i < w.len() ==> !is_white(#[trigger] w[i]),
        rest.len() == 0 || is_white(rest[0]),
    ensures
        word_len(w + rest) == w.len(),
    decreases w.len(),
{
    let s = w + rest;
    if w.len() > 0 {
        assert(!is_white(w[0]));
        assert(s.skip(1) =~= w.skip(1) + rest);
        assert forall|i: int| 0 <= i < w.skip(1).len() implies !is_white(#[trigger] w.skip(1)[i]) by {
            assert(!is_white(w[i + 1]));
        }
        lemma_word_len(w.skip(1), rest);
    } else {
        assert(s =~= rest);
    }
}

/// The second of two words is found behind any white space.
pub proof fn law_the_second_word_is_found(
    a: Seq<char>,
    v: Seq<char>,
    b: Seq<char>,
    w: Seq<char>,
    rest: Seq<char>,
)
    requires
        is_blank(a),
        is_blank(b),
        b.len() > 0,
        v.len() > 0,
        w.len() > 0,
        forall|i: int| 0 <= i < v.len() ==> !is_white(#[trigger] v[i]),
        forall|i: int| 0 <= i < w.len() ==> !is_white(#[trigger] w[i]),
        rest.len() == 0 || is_white(rest[0]),
    ensures
        second_word_spec(a + v + b + w + rest) == Some(w),
{
    let t = v + (b + (w + rest));
    assert(a + v + b + w + rest =~= a + t);
    assert(!is_white(v[0]));
    lemma_trim_start(a, t);
    assert(is_white(b[0]));
    lemma_word_len(v, b + (w + rest));
    assert(t.skip(v.len() as int) =~= b + (w + rest));
    assert(!is_white(w[0]));
    lemma_trim_start(b, w + rest);
    lemma_word_len(w, rest);
    assert((w + rest).take(w.len() as int) =~= w);
}

/// Without a second word, none is found.
pub proof fn law_one_word_is_not_two(a: Seq<char>, v: Seq<char>, b: Seq<char>)
    requires
        is_blank(a),
        is_blank(b),
        forall|i: int| 0 <= i < v.len() ==> !is_white(#[trigger] v[i]),
    ensures
        second_word_spec(a + v + b) is None,
{
    if v.len() == 0 {
        assert(a + v + b =~= a + b + Seq::empty());
        assert(is_blank(a + b)) by {
            assert forall|i: int| 0 <= i < (a + b).len() implies is_white(#[trigger] (a + b)[i]) by {
                if i < a.len() {
                    assert(is_white(a[i]));
                } else {
                    assert(is_white(b[i - a.len()]));
                }
            }
        }
        lemma_trim_start(a + b, Seq::empty());
        let t = Seq::<char>::empty();
        assert(t.skip(0) =~= t);
        assert(trim_start_spec(t) == t);
        assert(word_len(t) == 0);
    } else {
        assert(!is_white(v[0]));
        assert(a + v + b =~= a + (v + b));
        lemma_trim_start(a, v + b);
        if b.len() > 0 {
            assert(is_white(b[0]));
        }
        lemma_word_len(v, b);
        assert((v + b).skip(v.len() as int) =~= b);
        law_blanks_trim_to_nothing(b);
    }
}

/// The characters that count as white space.
pub open spec fn white_space() -> Seq<int> {
    seq![
        0x9, 0xa, 0xb, 0xc, 0xd, 0x20, 0x85, 0xa0, 0x1680, 0x2000, 0x2001, 0x2002, 0x2003, 0x2004, 0x2005,
        0x2006, 0x2007, 0x2008, 0x2009, 0x200a, 0x2028, 0x2029, 0x202f, 0x205f, 0x3000,
    ]
}

/// Just these characters are white space.
pub proof fn law_these_are_white(c: char, k: int)
    requires
        0 <= k < white_space().len(),
    ensures
        c as int == white_space()[k] ==> is_white(c),
        is_white(c) ==> exists|i: int| 0 <= i < white_space().len() && c as int == #[trigger] white_space()[i],
{
    if is_white(c) {
        let n = c as int;
        let i = if n <= 0xd {
            n - 9
        } else if n == 0x20 {
            5
        } else if n == 0x85 {
            6
        } else if n == 0xa0 {
            7
        } else if n == 0x1680 {
            8
        } else if n <= 0x200a {
            n - 0x2000 + 9
        } else if n <= 0x2029 {
            n - 0x2028 + 20
        } else if n == 0x202f {
            22
        } else if n == 0x205f {
            23
        } else {
            24
        };
        assert(white_space()[i] == n);
    }
}

// ------------------------------------------------------------------ manifest lines

/// Numbers in decimal.
pub open spec fn decimals(ns: Seq<usize>) -> Seq<Seq<char>> {
    Seq::new(ns.len(), |i: int| decimal(ns[i] as nat))
}

/// A shape as the manifest writes it: numbers with commas between them.
pub open spec fn shape_text(shape: Seq<usize>) -> Seq<char> {
    joined(decimals(shape), ',')
}

proof fn lemma_parse_all(ns: Seq<usize>)
    ensures
        parse_all(decimals(ns)) == Some(ns),
    decreases ns.len(),
{
    let ws = decimals(ns);
    if ns.len() > 0 {
        lemma_parse_all(ns.drop_last());
        assert(ws.drop_last() =~= decimals(ns.drop_last()));
        law_numbers_read_back(ns.last());
        assert(ns.drop_last().push(ns.last()) =~= ns);
    } else {
        assert(ns =~= Seq::empty());
    }
}

proof fn lemma_joined_lacks(ps: Seq<Seq<char>>, m: char, c: char)
    requires
        m != c,
        forall|i: int| 0 <= i < ps.len() ==> lacks(#[trigger] ps[i], c),
    ensures
        lacks(joined(ps, m), c),
    decreases ps.len(),
{
    if ps.len() > 0 {
        assert(lacks(ps[0], c));
        assert forall|i: int| 0 <= i < ps.skip(1).len() implies lacks(#[trigger] ps.skip(1)[i], c) by {
            assert(lacks(ps[i + 1], c));
        }
        lemma_joined_lacks(ps.skip(1), m, c);
        let (a, b) = (ps[0], joined(ps.skip(1), m));
        if ps.len() > 1 {
            let s = a + seq![m] + b;
            assert forall|i: int| 0 <= i < s.len() implies #[trigger] s[i] != c by {
                if i < a.len() {
                    assert(a[i] != c);
                } else if i > a.len() {
                    assert(b[i - a.len() - 1] != c);
                }
            }
        }
    }
}

proof fn lemma_shape_reads_back(shape: Seq<usize>)
    ensures
        parse_shape(shape_text(shape)) == Some(shape),
        lacks(shape_text(shape), ' '),
        lacks(shape_text(shape), '\n'),
        lacks(shape_text(shape), '\r'),
{
    let ws = decimals(shape);
    assert forall|i: int| 0 <= i < ws.len() implies lacks(#[trigger] ws[i], ',') && lacks(
        ws[i],
        ' ',
    ) && lacks(ws[i], '\n') && lacks(ws[i], '\r') by {
        lemma_decimals_lack(shape[i] as nat, ',');
        lemma_decimals_lack(shape[i] as nat, ' ');
        lemma_decimals_lack(shape[i] as nat, '\n');
        lemma_decimals_lack(shape[i] as nat, '\r');
    }
    lemma_joined_lacks(ws, ',', ' ');
    lemma_joined_lacks(ws, ',', '\n');
    lemma_joined_lacks(ws, ',', '\r');
    if shape.len() > 0 {
        law_splitting_undoes_joining(ws, ',');
        lemma_parse_all(shape);
        law_decimals_are_digits(shape[0] as nat);
        assert(ws[0].len() > 0);
        assert(joined(ws, ',').len() > 0);
    } else {
        assert(shape =~= Seq::empty());
    }
}

/// `s`, a space and a number.
pub open spec fn with_number(s: Seq<char>, n: usize) -> Seq<char> {
    s + seq![' '] + decimal(n as nat)
}

proof fn lemma_last_number(s: Seq<char>, n: usize)
    ensures
        last_number(with_number(s, n)) == Some((s, n)),
{
    lemma_decimals_lack(n as nat, ' ');
    law_the_last_mark_splits(s, ' ', decimal(n as nat));
    law_numbers_read_back(n);
}

/// A manifest line that was written as name, shape, offset and length, and for eight-bit codes the
/// offset of the scales and the length of a block, is read back as just these, whatever the name.
pub proof fn law_manifest_lines_read_back(
    name: Seq<char>,
    shape: Seq<usize>,
    off: usize,
    len: usize,
    soff: usize,
    block: usize,
)
    ensures
        ({
            let line = with_number(with_number(name + seq![' '] + shape_text(shape), off), len);
            &&& entry_spec(line, false) == Some(EntryView { name, shape, off, len, quant: None })
            &&& entry_spec(with_number(with_number(line, soff), block), true) == Some(
                EntryView { name, shape, off, len, quant: Some((soff, block)) },
            )
        }),
{
    let head = name + seq![' '] + shape_text(shape);
    lemma_shape_reads_back(shape);
    law_the_last_mark_splits(name, ' ', shape_text(shape));
    lemma_last_number(head, off);
    let one = with_number(head, off);
    lemma_last_number(one, len);
    let line = with_number(one, len);
    lemma_last_number(line, soff);
    lemma_last_number(with_number(line, soff), block);
}

proof fn lemma_trim_end_keeps(s: Seq<char>)
    requires
        s.len() > 0,
        !is_white(s[0]),
    ensures
        trim_end_spec(s).len() > 0,
    decreases s.len(),
{
    if is_white(s.last()) {
        assert(s.len() > 1);
        assert(s.drop_last()[0] == s[0]);
        lemma_trim_end_keeps(s.drop_last());
    }
}

/// Just the lines that are blank, or whose first character behind white space is `#`, describe no
/// tensor.
pub proof fn law_comments_are_blank_or_marked(a: Seq<char>, s: Seq<char>)
    requires
        is_blank(a),
        s.len() > 0 ==> !is_white(s[0]),
    ensures
        is_comment(a + s) <==> s.len() == 0 || s[0] == '#',
{
    reveal_strlit("#");
    lemma_trim_start(a, s);
    if s.len() > 0 {
        lemma_trim_end_keeps(s);
        assert(s.take(1) =~= seq![s[0]]);
        assert("#"@ =~= seq!['#']);
        if s[0] != '#' {
            assert(seq![s[0]][0] != seq!['#'][0]);
        }
    }
}

// ------------------------------------------------------------------ the header

proof fn lemma_first_line(l: Seq<char>, rest: Seq<char>)
    requires
        is_line(l),
        is_trim(l),
    ensures
        head_line(l + seq!['\n'] + rest) == l,
{
    let s = l + seq!['\n'] + rest;
    lemma_first_of(l, '\n', rest);
    assert(s.take(l.len() as int) =~= l);
    assert(lines_spec(s)[0] == l);
    law_trimming_takes_off_the_blanks(Seq::empty(), l, Seq::empty());
    assert(Seq::empty() + l + Seq::empty() =~= l);
}

/// A first line `#dtype int8 payload <n>` declares eight-bit codes, of which there are `n`; they have to
/// fit in the blob.
pub proof fn law_the_int8_header_reads_back(p: usize, rest: Seq<char>, n: nat)
    ensures
        ({
            let line = "#dtype int8"@ + " payload "@ + decimal(p as nat);
            dtype_spec(line + seq!['\n'] + rest, n) == if p <= n {
                Ok::<Dtype, Seq<char>>(Dtype::Int8 { payload: p })
            } else {
                Err("int8 payload runs past end of blob"@)
            }
        }),
{
    reveal_strlit("#dtype int8");
    reveal_strlit(" payload ");
    let d = decimal(p as nat);
    let (mark, gap) = ("#dtype int8"@, " payload "@);
    let line = mark + gap + d;
    law_decimals_are_digits(p as nat);
    lemma_decimals_lack(p as nat, '\n');
    assert forall|i: int| 0 <= i < d.len() implies !is_white(#[trigger] d[i]) by {
        assert(is_digit(d[i]));
    }
    assert(line.last() == d.last());
    assert(is_digit(d[d.len() - 1]));
    assert(line[0] == '#');
    assert forall|i: int| 0 <= i < line.len() implies #[trigger] line[i] != '\n' by {
        if i >= 20 {
            assert(line[i] == d[i - 20]);
        }
    }
    lemma_first_line(line, rest);
    assert(line.take(11) =~= mark);
    let tail = line.skip(11);
    let word = seq!['p', 'a', 'y', 'l', 'o', 'a', 'd'];
    assert(tail =~= seq![' '] + word + seq![' '] + d + Seq::empty());
    law_the_second_word_is_found(seq![' '], word, seq![' '], d, Seq::empty());
    law_numbers_read_back(p);
}

/// A first line that starts with `#dtype int8` and does not give a number as its second word behind that is
/// refused.
pub proof fn law_int8_headers_need_a_number(
    a: Seq<char>,
    v: Seq<char>,
    b: Seq<char>,
    w: Seq<char>,
    rest: Seq<char>,
    n: nat,
)
    requires
        is_blank(a),
        is_blank(b),
        v.len() > 0,
        forall|i: int| 0 <= i < v.len() ==> !is_white(#[trigger] v[i]),
        forall|i: int| 0 <= i < w.len() ==> !is_white(#[trigger] w[i]),
        w.len() > 0 ==> b.len() > 0 && parse_usize_spec(w) is None,
        w.len() == 0 ==> b.len() == 0,
        is_line("#dtype int8"@ + a + v + b + w),
    ensures
        dtype_spec("#dtype int8"@ + a + v + b + w + seq!['\n'] + rest, n) == Err::<Dtype, Seq<char>>(
            "int8 header needs `payload <n_elements>`"@,
        ),
{
    reveal_strlit("#dtype int8");
    let mark = "#dtype int8"@;
    let line = mark + a + v + b + w;
    let tail = a + v + b + w + Seq::empty();
    assert(line[0] == '#');
    if w.len() > 0 {
        assert(line.last() == w.last());
        assert(!is_white(w[w.len() - 1]));
    } else {
        assert(line.last() == v.last());
        assert(!is_white(v[v.len() - 1]));
    }
    lemma_first_line(line, rest);
    assert(line.take(11) =~= mark);
    assert(line.skip(11) =~= tail);
    if w.len() > 0 {
        law_the_second_word_is_found(a, v, b, w, Seq::empty());
    } else {
        assert(tail =~= a + v + b);
        law_one_word_is_not_two(a, v, b);
    }
}

/// A first line `#dtype f16` declares binary16, and one that does not start with `#dtype` binary32.
pub proof fn law_the_other_headers(first: Seq<char>, rest: Seq<char>, n: nat)
    requires
        is_line(first),
        is_trim(first),
        !starts_with_spec(first, "#dtype"@),
    ensures
        dtype_spec("#dtype f16"@ + seq!['\n'] + rest, n) == Ok::<Dtype, Seq<char>>(Dtype::F16),
        dtype_spec(first + seq!['\n'] + rest, n) == Ok::<Dtype, Seq<char>>(Dtype::F32),
{
    reveal_strlit("#dtype f16");
    reveal_strlit("#dtype int8");
    reveal_strlit("#dtype");
    let half = "#dtype f16"@;
    lemma_first_line(half, rest);
    assert(half.take(10) =~= half);
    lemma_first_line(first, rest);
    if starts_with_spec(first, "#dtype int8"@) {
        assert(first.take(6) =~= first.take(11).take(6));
        assert("#dtype int8"@.take(6) =~= "#dtype"@);
    }
    if starts_with_spec(first, "#dtype f16"@) {
        assert(first.take(6) =~= first.take(10).take(6));
        assert("#dtype f16"@.take(6) =~= "#dtype"@);
    }
}

// ------------------------------------------------------------------ the weights

/// The binary32 number in four bytes, the least significant first.
pub open spec fn float_at(bin: Seq<u8>, q: int) -> F32 {
    F32 {
        bits: (bin[q] + 256 * bin[q + 1] + 65536 * bin[q + 2] + 16777216 * bin[q + 3]) as u32,
    }
}

/// What stays loaded after line `j` was taken in.
proof fn lemma_loaded_so_far(
    bin: Seq<u8>,
    dtype: Dtype,
    data: Seq<F32>,
    ls: Seq<Seq<char>>,
    j: nat,
    n: nat,
)
    requires
        j <= n,
        lines_loaded(bin, dtype, data, ls, n) is Ok,
    ensures
        lines_loaded(bin, dtype, data, ls, j) is Ok,
    decreases n,
{
    if j < n {
        lemma_loaded_so_far(bin, dtype, data, ls, j, (n - 1) as nat);
    }
}

/// Eight-bit weights: number `k` of a tensor is the signed byte at its place in the blob times the scale
/// of its own block, which is number `soff + k / block` of the table of binary32 numbers behind the codes.
pub proof fn law_weights_are_codes_times_the_scale_of_their_block(
    bin: Seq<u8>,
    manifest: Seq<char>,
    payload: usize,
    j: int,
    e: EntryView,
    soff: usize,
    block: usize,
    k: int,
)
    requires
        dtype_spec(manifest, bin.len()) == Ok::<Dtype, Seq<char>>(Dtype::Int8 { payload }),
        0 <= j < lines_spec(manifest).len(),
        !is_comment(lines_spec(manifest)[j]),
        entry_spec(lines_spec(manifest)[j], true) == Some(e),
        e.quant == Some((soff, block)),
        forall|i: int|
            j < i < lines_spec(manifest).len() ==> leaves_alone(
                #[trigger] lines_spec(manifest)[i],
                e,
            ),
        0 <= k < e.len,
    ensures
        load_spec(bin, manifest) matches Ok(a) ==> ({
            let byte = bin[e.off + k];
            let code = if byte < 128 {
                byte as int
            } else {
                byte - 256
            };
            let q = payload + 4 * (soff + k / (block as int));
            &&& block > 0
            &&& q + 4 <= bin.len()
            &&& a.tensors.contains_key(e.name)
            &&& a.tensors[e.name].shape == e.shape
            &&& a.tensor(e.name).len() == e.len
            &&& a.tensor(e.name)[k] == F32::of_int(code).mul_spec(float_at(bin, q))
            &&& F32::of_int(code).is_finite_spec() && F32::of_int(code).value() == code as real
        }),
{
    let dtype = Dtype::Int8 { payload };
    let ls = lines_spec(manifest);
    if load_spec(bin, manifest) is Ok {
        let data = blob_spec(bin, dtype)->Ok_0;
        let a = load_spec(bin, manifest)->Ok_0;
        law_int8_tensors_are_recovered(bin, payload, data, ls, j as nat, ls.len(), e);
        lemma_loaded_so_far(bin, dtype, data, ls, (j + 1) as nat, ls.len());
        lemma_loaded_so_far(bin, dtype, data, ls, j as nat, ls.len());
        crate::weights::law_loaded_tensors_lie_in_the_arena(bin, manifest);
        let before = lines_loaded(bin, dtype, data, ls, j as nat)->Ok_0;
        assert(line_spec(bin, dtype, before, ls[j], (j + 1) as nat) is Ok);
        assert(block > 0);
        let (b, l) = (block as int, e.len as int);
        assert(0 <= k / b && k / b < (l + b - 1) / b) by {
            vstd::arithmetic::div_mod::lemma_div_is_ordered(k, l - 1, b);
            vstd::arithmetic::div_mod::lemma_div_plus_one(l - 1, b);
            vstd::arithmetic::div_mod::lemma_div_pos_is_pos(k, b);
            assert(l + b - 1 == (l - 1) + b);
        }
        let t = bin.skip(payload as int);
        let x = soff + k / b;
        assert(x < t.len() / 4);
        let q = payload + 4 * x;
        assert(t[4 * x] == bin[q] && t[4 * x + 1] == bin[q + 1] && t[4 * x + 2] == bin[q + 2] && t[4
            * x + 3] == bin[q + 3]);
        let i = e.off + k;
        assert(a.tensor(e.name)[k] == a.data[i]);
        assert(a.data[i] == dequantised(
            bin,
            crate::weights::scale_table(bin, dtype),
            e.off as int,
            soff as int,
            b,
            i,
        ));
        assert(i - e.off == k);
        let byte = bin[i];
        let code = if byte < 128 {
            byte as int
        } else {
            byte - 256
        };
        crate::shares::law_small_integers_are_numbers(code);
    }
}

/// Whether a manifest line does not take the name of another entry.
pub open spec fn leaves_the_name(line: Seq<char>, e: EntryView) -> bool {
    is_comment(line) || match entry_spec(line, false) {
        None => true,
        Some(d) => d.name != e.name,
    }
}

proof fn lemma_float_tensor_stays(
    bin: Seq<u8>,
    dtype: Dtype,
    data: Seq<F32>,
    ls: Seq<Seq<char>>,
    j: nat,
    n: nat,
    e: EntryView,
)
    requires
        !is_int8(dtype),
        j < n <= ls.len(),
        !is_comment(ls[j as int]),
        entry_spec(ls[j as int], false) == Some(e),
        forall|i: int| j < i < n ==> leaves_the_name(#[trigger] ls[i], e),
    ensures
        lines_loaded(bin, dtype, data, ls, n) matches Ok(a) ==> a.tensors.contains_key(e.name)
            && a.tensors[e.name] == (TensorView {
            shape: e.shape,
            off: e.off as nat,
            len: e.len as nat,
        }),
    decreases n,
{
    if lines_loaded(bin, dtype, data, ls, n) is Ok {
        let prev = lines_loaded(bin, dtype, data, ls, (n - 1) as nat);
        assert(lines_loaded(bin, dtype, data, ls, n) == line_spec(
            bin,
            dtype,
            prev->Ok_0,
            ls[n - 1],
            n,
        ));
        if j + 1 < n {
            lemma_float_tensor_stays(bin, dtype, data, ls, j, (n - 1) as nat, e);
            assert(leaves_the_name(ls[n - 1], e));
        }
    }
}

/// Binary32 and binary16 weights: number `k` of a tensor is the pattern at place `off + k` of the blob,
/// four or two bytes each, the least significant byte first; binary16 is widened.
pub proof fn law_float_weights_are_the_bytes_of_the_blob(
    bin: Seq<u8>,
    manifest: Seq<char>,
    half: bool,
    j: int,
    e: EntryView,
    k: int,
)
    requires
        dtype_spec(manifest, bin.len()) == Ok::<Dtype, Seq<char>>(
            if half {
                Dtype::F16
            } else {
                Dtype::F32
            },
        ),
        0 <= j < lines_spec(manifest).len(),
        !is_comment(lines_spec(manifest)[j]),
        entry_spec(lines_spec(manifest)[j], false) == Some(e),
        forall|i: int|
            j < i < lines_spec(manifest).len() ==> leaves_the_name(
                #[trigger] lines_spec(manifest)[i],
                e,
            ),
        0 <= k < e.len,
    ensures
        load_spec(bin, manifest) matches Ok(a) ==> ({
            let i = e.off + k;
            &&& a.tensors.contains_key(e.name)
            &&& a.tensors[e.name].shape == e.shape
            &&& a.tensor(e.name).len() == e.len
            &&& half ==> 2 * i + 2 <= bin.len() && a.tensor(e.name)[k] == widen(
                (bin[2 * i] + 256 * bin[2 * i + 1]) as u16,
            )
            &&& !half ==> 4 * i + 4 <= bin.len() && a.tensor(e.name)[k] == float_at(bin, 4 * i)
        }),
{
    let dtype = if half {
        Dtype::F16
    } else {
        Dtype::F32
    };
    let ls = lines_spec(manifest);
    if load_spec(bin, manifest) is Ok {
        let data = blob_spec(bin, dtype)->Ok_0;
        let a = load_spec(bin, manifest)->Ok_0;
        law_a_float_arena_is_its_blob(bin, manifest, dtype);
        crate::weights::law_loaded_tensors_lie_in_the_arena(bin, manifest);
        lemma_float_tensor_stays(bin, dtype, data, ls, j as nat, ls.len(), e);
        let i = e.off + k;
        assert(a.data == data);
        assert(a.tensor(e.name)[k] == data[i]);
    }
}

} // verus!
