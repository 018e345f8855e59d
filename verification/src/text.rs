//! Text as sequences of characters: lines, fields, numbers.

use vstd::prelude::*;

verus! {

/// `String::push` appends one character.
pub assume_specification[ String::push ](s: &mut String, c: char)
    ensures
        final(s)@ == old(s)@.push(c),
;

/// What the `Debug` form of the text `s` is.
pub uninterp spec fn debug_text(s: Seq<char>) -> Seq<char>;

/// The `Debug` form of a `str`, made by `format!`. It is a function of the text alone; nothing
/// more is claimed of it.
#[verifier::external_body]
pub(crate) fn debug_str(s: &str) -> (r: String)
    ensures
        r@ == debug_text(s@),
{
    format!("{:?}", s)
}

/// The characters of `s`.
pub fn to_chars(s: &str) -> (r: Vec<char>)
    ensures
        r@ == s@,
{
    let mut r: Vec<char> = Vec::new();
    for c in it: s.chars()
        invariant
            it.seq() == s@,
            r@ == it.seq().take(it.index() as int),
    {
        r.push(c);
    }
    r
}

/// The text of the characters `s`.
pub fn from_chars(s: &[char]) -> (r: String)
    ensures
        r@ == s@,
{
    let mut r = String::new();
    let n = s.len();
    for i in 0..n
        invariant
            n == s@.len(),
            r@ == s@.take(i as int),
    {
        r.push(s[i]);
    }
    r
}

// ------------------------------------------------------------------ numbers

/// Whether `c` is a decimal digit.
pub open spec fn is_digit(c: char) -> bool {
    '0' <= c && c <= '9'
}

/// What a decimal digit stands for.
pub open spec fn digit_value(c: char) -> nat {
    (c as int - '0' as int) as nat
}

/// The value of a sequence of digits, the most significant first.
pub open spec fn digits_value(s: Seq<char>) -> nat
    decreases s.len(),
{
    if s.len() == 0 {
        0
    } else {
        10 * digits_value(s.drop_last()) + digit_value(s.last())
    }
}

/// What is left of a number without a leading plus sign.
pub open spec fn without_plus(s: Seq<char>) -> Seq<char> {
    if s.len() > 0 && s[0] == '+' {
        s.skip(1)
    } else {
        s
    }
}

/// A `usize` in decimal: an optional plus sign, then one digit or more, and nothing else; the
/// value has to fit.
pub open spec fn parse_usize_spec(s: Seq<char>) -> Option<usize> {
    let d = without_plus(s);
    if d.len() > 0 && (forall|i: int| 0 <= i < d.len() ==> is_digit(#[trigger] d[i])) && digits_value(
        d,
    ) <= usize::MAX {
        Some(digits_value(d) as usize)
    } else {
        None
    }
}

proof fn lemma_digits_value_grows(s: Seq<char>, k: int)
    requires
        0 <= k <= s.len(),
    ensures
        digits_value(s.take(k)) <= digits_value(s),
    decreases s.len() - k,
{
    if k == s.len() {
        assert(s.take(k) =~= s);
    } else {
        assert(s.take(k + 1).drop_last() =~= s.take(k));
        lemma_digits_value_grows(s, k + 1);
    }
}

/// A `usize` in decimal.
pub fn parse_usize(s: &[char]) -> (r: Option<usize>)
    ensures
        r == parse_usize_spec(s@),
{
    let start: usize = if s.len() > 0 && s[0] == '+' {
        1
    } else {
        0
    };
    let n = s.len();
    let ghost d = without_plus(s@);
    assert(d =~= s@.skip(start as int));
    if start == n {
        return None;
    }
    let mut v: usize = 0;
    let mut i: usize = start;
    while i < n
        invariant
            start <= i <= n,
            n == s@.len(),
            d == s@.skip(start as int),
            forall|j: int| 0 <= j < i - start ==> is_digit(#[trigger] d[j]),
            v == digits_value(d.take(i - start)),
            d == without_plus(s@),
        decreases n - i,
    {
        let c = s[i];
        assert(d[i - start] == c);
        assert(d.take(i + 1 - start).drop_last() =~= d.take(i - start));
        if !('0' <= c && c <= '9') {
            return None;
        }
        let k: usize = (c as u32 - '0' as u32) as usize;
        proof {
            lemma_digits_value_grows(d, i + 1 - start);
        }
        if v > (usize::MAX - k) / 10 {
            return None;
        }
        v = 10 * v + k;
        i = i + 1;
    }
    assert(d.take(n - start) =~= d);
    Some(v)
}

/// The digit `k`.
pub open spec fn digit_char(k: nat) -> char {
    (48 + k) as char
}

/// `n` in decimal, without leading zeros.
pub open spec fn decimal(n: nat) -> Seq<char>
    decreases n,
{
    if n < 10 {
        seq![digit_char(n)]
    } else {
        decimal(n / 10).push(digit_char(n % 10))
    }
}

/// Appends `n` in decimal.
pub fn push_decimal(s: &mut String, n: usize)
    ensures
        final(s)@ == old(s)@ + decimal(n as nat),
    decreases n,
{
    if n >= 10 {
        push_decimal(s, n / 10);
    }
    let c: char = (48 + (n % 10) as u8) as char;
    s.push(c);
    proof {
        if n < 10 {
            assert(old(s)@.push(c) =~= old(s)@ + seq![c]);
        } else {
            assert((old(s)@ + decimal((n / 10) as nat)).push(c) =~= old(s)@ + decimal(
                (n / 10) as nat,
            ).push(c));
        }
    }
}

/// The first `k` numbers in decimal, with a comma and a space between two.
pub open spec fn listed(s: Seq<usize>, k: nat) -> Seq<char>
    decreases k,
{
    if k == 0 {
        Seq::empty()
    } else if k == 1 {
        decimal(s[0] as nat)
    } else {
        listed(s, (k - 1) as nat) + ", "@ + decimal(s[k - 1] as nat)
    }
}

/// A list of numbers in square brackets.
pub open spec fn list_text(s: Seq<usize>) -> Seq<char> {
    "["@ + listed(s, s.len()) + "]"@
}

/// Appends a list of numbers in square brackets.
pub fn push_list(t: &mut String, s: &[usize])
    ensures
        final(t)@ == old(t)@ + list_text(s@),
{
    t.append("[");
    let n = s.len();
    assert(t@ =~= old(t)@ + "["@ + listed(s@, 0));
    for i in 0..n
        invariant
            n == s@.len(),
            t@ == old(t)@ + "["@ + listed(s@, i as nat),
    {
        let ghost before = t@;
        if i > 0 {
            t.append(", ");
        }
        push_decimal(t, s[i]);
        assert(t@ =~= old(t)@ + "["@ + listed(s@, (i + 1) as nat));
    }
    t.append("]");
    assert(t@ =~= old(t)@ + list_text(s@));
}

// ------------------------------------------------------------------ white space

/// Unicode's White_Space property.
pub open spec fn is_white(c: char) -> bool {
    ||| 0x9 <= c as u32 <= 0xd
    ||| c as u32 == 0x20
    ||| c as u32 == 0x85
    ||| c as u32 == 0xa0
    ||| c as u32 == 0x1680
    ||| 0x2000 <= c as u32 <= 0x200a
    ||| c as u32 == 0x2028
    ||| c as u32 == 0x2029
    ||| c as u32 == 0x202f
    ||| c as u32 == 0x205f
    ||| c as u32 == 0x3000
}

/// Unicode's White_Space property.
pub fn is_white_space(c: char) -> (r: bool)
    ensures
        r == is_white(c),
{
    let u = c as u32;
    (0x9 <= u && u <= 0xd) || u == 0x20 || u == 0x85 || u == 0xa0 || u == 0x1680 || (0x2000 <= u
        && u <= 0x200a) || u == 0x2028 || u == 0x2029 || u == 0x202f || u == 0x205f || u == 0x3000
}

/// The text without white space at its start.
pub open spec fn trim_start_spec(s: Seq<char>) -> Seq<char>
    decreases s.len(),
{
    if s.len() > 0 && is_white(s[0]) {
        trim_start_spec(s.skip(1))
    } else {
        s
    }
}

/// The text without white space at its end.
pub open spec fn trim_end_spec(s: Seq<char>) -> Seq<char>
    decreases s.len(),
{
    if s.len() > 0 && is_white(s.last()) {
        trim_end_spec(s.drop_last())
    } else {
        s
    }
}

/// The text without white space at either end.
pub open spec fn trim_spec(s: Seq<char>) -> Seq<char> {
    trim_end_spec(trim_start_spec(s))
}

/// The text without white space at its start.
pub fn trim_start(s: &[char]) -> (r: &[char])
    ensures
        r@ == trim_start_spec(s@),
{
    let n = s.len();
    let mut i: usize = 0;
    assert(s@.skip(0) =~= s@);
    while i < n && is_white_space(s[i])
        invariant
            0 <= i <= n,
            n == s@.len(),
            trim_start_spec(s@.skip(i as int)) == trim_start_spec(s@),
        decreases n - i,
    {
        assert(s@.skip(i as int).skip(1) =~= s@.skip(i + 1));
        i = i + 1;
    }
    assert(s@.subrange(i as int, n as int) =~= s@.skip(i as int));
    &s[i..n]
}

/// The text without white space at either end.
pub fn trim(s: &[char]) -> (r: &[char])
    ensures
        r@ == trim_spec(s@),
{
    let t = trim_start(s);
    let mut n = t.len();
    assert(t@.take(n as int) =~= t@);
    while n > 0 && is_white_space(t[n - 1])
        invariant
            0 <= n <= t@.len(),
            trim_end_spec(t@.take(n as int)) == trim_end_spec(t@),
        decreases n,
    {
        assert(t@.take(n as int).drop_last() =~= t@.take(n - 1));
        n = n - 1;
    }
    assert(t@.subrange(0, n as int) =~= t@.take(n as int));
    &t[0..n]
}

// ------------------------------------------------------------------ splitting

/// Whether `s` starts with `p`.
pub open spec fn starts_with_spec(s: Seq<char>, p: Seq<char>) -> bool {
    p.len() <= s.len() && s.take(p.len() as int) == p
}

/// Whether `s` starts with `p`.
pub fn starts_with(s: &[char], p: &str) -> (r: bool)
    ensures
        r == starts_with_spec(s@, p@),
{
    let q = to_chars(p);
    if q.len() > s.len() {
        return false;
    }
    let n = q.len();
    for i in 0..n
        invariant
            n == q@.len(),
            q@ == p@,
            n <= s@.len(),
            forall|j: int| 0 <= j < i ==> #[trigger] s@[j] == q@[j],
    {
        if s[i] != q[i] {
            assert(s@.take(n as int)[i as int] != p@[i as int]);
            return false;
        }
    }
    assert(s@.take(n as int) =~= p@);
    true
}

/// The position of the first `c` in `s`, or its length.
pub open spec fn first_of(s: Seq<char>, c: char) -> nat
    decreases s.len(),
{
    if s.len() == 0 || s[0] == c {
        0
    } else {
        1 + first_of(s.skip(1), c)
    }
}

/// The position of the last `c` in `s`, or -1.
pub open spec fn last_of(s: Seq<char>, c: char) -> int
    decreases s.len(),
{
    if s.len() == 0 {
        -1
    } else if s.last() == c {
        s.len() - 1
    } else {
        last_of(s.drop_last(), c)
    }
}

proof fn lemma_first_of(s: Seq<char>, c: char, k: int)
    requires
        0 <= k <= s.len(),
        forall|i: int| 0 <= i < k ==> #[trigger] s[i] != c,
        k < s.len() ==> s[k] == c,
    ensures
        first_of(s, c) == k,
    decreases s.len(),
{
    if s.len() > 0 && k > 0 {
        assert(s[0] != c);
        let t = s.skip(1);
        assert forall|i: int| 0 <= i < k - 1 implies #[trigger] t[i] != c by {
            assert(t[i] == s[i + 1]);
        }
        lemma_first_of(t, c, k - 1);
    }
}

/// The position of the first `c`, or the length.
pub fn find_first(s: &[char], c: char) -> (k: usize)
    ensures
        k == first_of(s@, c),
        k <= s@.len(),
        k < s@.len() ==> s@[k as int] == c,
{
    let n = s.len();
    let mut i: usize = 0;
    while i < n && s[i] != c
        invariant
            0 <= i <= n,
            n == s@.len(),
            forall|j: int| 0 <= j < i ==> #[trigger] s@[j] != c,
        decreases n - i,
    {
        i = i + 1;
    }
    proof {
        lemma_first_of(s@, c, i as int);
    }
    i
}

/// The position of the last `c`, if there is one.
pub fn find_last(s: &[char], c: char) -> (r: Option<usize>)
    ensures
        match r {
            Some(k) => k == last_of(s@, c) && k < s@.len() && s@[k as int] == c,
            None => last_of(s@, c) == -1,
        },
{
    let mut n = s.len();
    assert(s@.take(n as int) =~= s@);
    while n > 0
        invariant
            0 <= n <= s@.len(),
            last_of(s@.take(n as int), c) == last_of(s@, c),
        decreases n,
    {
        if s[n - 1] == c {
            return Some(n - 1);
        }
        assert(s@.take(n as int).drop_last() =~= s@.take(n - 1));
        n = n - 1;
    }
    None
}

/// What stands before and after the last `c`, if there is one.
pub open spec fn rsplit_once_spec(s: Seq<char>, c: char) -> Option<(Seq<char>, Seq<char>)> {
    let k = last_of(s, c);
    if k < 0 {
        None
    } else {
        Some((s.take(k), s.skip(k + 1)))
    }
}

/// The text before and behind the last `c`.
pub fn rsplit_once(s: &[char], c: char) -> (r: Option<(&[char], &[char])>)
    ensures
        match r {
            Some((a, b)) => rsplit_once_spec(s@, c) == Some((a@, b@)),
            None => rsplit_once_spec(s@, c) is None,
        },
{
    match find_last(s, c) {
        None => None,
        Some(k) => {
            let n = s.len();
            assert(s@.subrange(0, k as int) =~= s@.take(k as int));
            assert(s@.subrange(k + 1, n as int) =~= s@.skip(k + 1));
            Some((&s[0..k], &s[k + 1..n]))
        },
    }
}

/// A line without the carriage return of its line ending.
pub open spec fn without_cr(s: Seq<char>) -> Seq<char> {
    if s.len() > 0 && s.last() == '\r' {
        s.drop_last()
    } else {
        s
    }
}

/// The lines of a text. A line ends with a newline, or with a carriage return and a newline;
/// the ending of the last line may be missing.
pub open spec fn lines_spec(s: Seq<char>) -> Seq<Seq<char>>
    decreases s.len(),
{
    if s.len() == 0 {
        Seq::empty()
    } else {
        let k = first_of(s, '\n');
        if k >= s.len() {
            seq![s]
        } else {
            seq![without_cr(s.take(k as int))] + lines_spec(s.skip(k as int + 1))
        }
    }
}

/// The texts that slices hold.
pub open spec fn texts(v: Seq<&[char]>) -> Seq<Seq<char>> {
    Seq::new(v.len(), |i: int| v[i]@)
}

/// The lines of a text.
pub fn lines(s: &[char]) -> (r: Vec<&[char]>)
    ensures
        texts(r@) == lines_spec(s@),
{
    let n = s.len();
    let mut r: Vec<&[char]> = Vec::new();
    let mut i: usize = 0;
    assert(s@.skip(0) =~= s@);
    assert(texts(r@) + lines_spec(s@) =~= lines_spec(s@));
    while i < n
        invariant
            0 <= i <= n,
            n == s@.len(),
            texts(r@) + lines_spec(s@.skip(i as int)) == lines_spec(s@),
        decreases n - i,
    {
        let ghost rest = s@.skip(i as int);
        let ghost before = texts(r@);
        assert(s@.subrange(i as int, n as int) =~= rest);
        let t: &[char] = &s[i..n];
        let k = find_first(t, '\n');
        if k == t.len() {
            r.push(t);
            assert(texts(r@) =~= before.push(rest));
            assert(before.push(rest) =~= before + seq![rest]);
            i = n;
            assert(s@.skip(n as int).len() == 0);
            assert(texts(r@) + lines_spec(s@.skip(n as int)) =~= texts(r@));
        } else {
            let end: usize = if k > 0 && t[k - 1] == '\r' {
                k - 1
            } else {
                k
            };
            let ghost line = without_cr(rest.take(k as int));
            assert(t@.subrange(0, end as int) =~= line);
            r.push(&t[0..end]);
            assert(texts(r@) =~= before.push(line));
            assert(rest.skip(k + 1) =~= s@.skip(i + k + 1));
            assert(before.push(line) + lines_spec(rest.skip(k + 1)) =~= before + (seq![line]
                + lines_spec(rest.skip(k + 1))));
            i = i + k + 1;
        }
    }
    assert(s@.skip(n as int).len() == 0);
    assert(texts(r@) + lines_spec(s@.skip(n as int)) =~= texts(r@));
    r
}

/// The pieces of `s` between occurrences of `c`; one more than there are occurrences.
pub open spec fn split_spec(s: Seq<char>, c: char) -> Seq<Seq<char>>
    decreases s.len(),
{
    let k = first_of(s, c);
    if k >= s.len() {
        seq![s]
    } else {
        seq![s.take(k as int)] + split_spec(s.skip(k as int + 1), c)
    }
}

/// The pieces of a text between its `c`s.
pub fn split(s: &[char], c: char) -> (r: Vec<&[char]>)
    ensures
        texts(r@) == split_spec(s@, c),
{
    let n = s.len();
    let mut r: Vec<&[char]> = Vec::new();
    let mut i: usize = 0;
    assert(s@.skip(0) =~= s@);
    assert(texts(r@) + split_spec(s@, c) =~= split_spec(s@, c));
    loop
        invariant
            0 <= i <= n,
            n == s@.len(),
            texts(r@) + split_spec(s@.skip(i as int), c) == split_spec(s@, c),
        decreases n - i,
    {
        let ghost rest = s@.skip(i as int);
        let ghost before = texts(r@);
        assert(s@.subrange(i as int, n as int) =~= rest);
        let t: &[char] = &s[i..n];
        let k = find_first(t, c);
        if k == t.len() {
            r.push(t);
            assert(texts(r@) =~= before.push(rest));
            assert(before.push(rest) =~= before + seq![rest]);
            return r;
        }
        assert(t@.subrange(0, k as int) =~= rest.take(k as int));
        r.push(&t[0..k]);
        assert(texts(r@) =~= before.push(rest.take(k as int)));
        assert(rest.skip(k + 1) =~= s@.skip(i + k + 1));
        assert(before.push(rest.take(k as int)) + split_spec(rest.skip(k + 1), c) =~= before + (
        seq![rest.take(k as int)] + split_spec(rest.skip(k + 1), c)));
        i = i + k + 1;
    }
}

/// How many characters there are before the first white space.
pub open spec fn word_len(s: Seq<char>) -> nat
    decreases s.len(),
{
    if s.len() == 0 || is_white(s[0]) {
        0
    } else {
        1 + word_len(s.skip(1))
    }
}

/// The second of the words that white space separates, if there are two.
pub open spec fn second_word_spec(s: Seq<char>) -> Option<Seq<char>> {
    let t = trim_start_spec(s);
    let rest = trim_start_spec(t.skip(word_len(t) as int));
    if rest.len() == 0 {
        None
    } else {
        Some(rest.take(word_len(rest) as int))
    }
}

fn find_word_end(s: &[char]) -> (k: usize)
    ensures
        k == word_len(s@),
        k <= s@.len(),
{
    let n = s.len();
    let mut i: usize = 0;
    assert(s@.skip(0) =~= s@);
    while i < n && !is_white_space(s[i])
        invariant
            0 <= i <= n,
            n == s@.len(),
            word_len(s@) == i + word_len(s@.skip(i as int)),
        decreases n - i,
    {
        assert(s@.skip(i as int).skip(1) =~= s@.skip(i + 1));
        i = i + 1;
    }
    i
}

/// The second word of a text.
pub fn second_word(s: &[char]) -> (r: Option<&[char]>)
    ensures
        match r {
            Some(w) => second_word_spec(s@) == Some(w@),
            None => second_word_spec(s@) is None,
        },
{
    let t = trim_start(s);
    let k = find_word_end(t);
    let n = t.len();
    assert(t@.subrange(k as int, n as int) =~= t@.skip(k as int));
    let rest = trim_start(&t[k..n]);
    if rest.len() == 0 {
        return None;
    }
    let k = find_word_end(rest);
    assert(rest@.subrange(0, k as int) =~= rest@.take(k as int));
    Some(&rest[0..k])
}

} // verus!
