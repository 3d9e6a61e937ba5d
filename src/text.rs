//! Character-level helpers shared by the format readers and writers.
use vstd::prelude::*;
use vstd::std_specs::iter::IteratorSpec;

verus! {

/// Unicode `White_Space`: what the regular expression class `\s` matches and
/// what `str::trim` removes.
pub open spec fn is_white_space(c: char) -> bool {
    ||| '\t' <= c <= '\r'
    ||| c == ' '
    ||| c == '\u{85}'
    ||| c == '\u{a0}'
    ||| c == '\u{1680}'
    ||| '\u{2000}' <= c <= '\u{200a}'
    ||| c == '\u{2028}'
    ||| c == '\u{2029}'
    ||| c == '\u{202f}'
    ||| c == '\u{205f}'
    ||| c == '\u{3000}'
}

pub fn white_space(c: char) -> (r: bool)
    ensures
        r == is_white_space(c),
{
    ('\t' <= c && c <= '\r') || c == ' ' || c == '\u{85}' || c == '\u{a0}' || c == '\u{1680}'
        || ('\u{2000}' <= c && c <= '\u{200a}') || c == '\u{2028}' || c == '\u{2029}'
        || c == '\u{202f}' || c == '\u{205f}' || c == '\u{3000}'
}

/// The pieces of `s` between the maximal runs of white space: an empty piece
/// stands before a leading run and after a trailing one, and `s` without white
/// space is one piece.
pub open spec fn split_on_white_space(s: Seq<char>) -> Seq<Seq<char>>
    decreases s.len(),
{
    if s.len() == 0 {
        seq![Seq::empty()]
    } else {
        let rest = split_on_white_space(s.drop_last());
        let c = s.last();
        if is_white_space(c) {
            if s.len() >= 2 && is_white_space(s[s.len() - 2]) {
                rest
            } else {
                rest.push(Seq::empty())
            }
        } else {
            rest.update(rest.len() - 1, rest.last().push(c))
        }
    }
}

/// The non-empty pieces among `ps`, in order.
pub open spec fn nonempty(ps: Seq<Seq<char>>) -> Seq<Seq<char>>
    decreases ps.len(),
{
    if ps.len() == 0 {
        seq![]
    } else if ps[0].len() > 0 {
        seq![ps[0]] + nonempty(ps.drop_first())
    } else {
        nonempty(ps.drop_first())
    }
}

/// The words of `s`: the non-empty pieces between runs of white space.
pub open spec fn words(s: Seq<char>) -> Seq<Seq<char>> {
    nonempty(split_on_white_space(s))
}

/// The pieces of `s` between `\n` characters; the last one is not followed by
/// a `\n`.
pub open spec fn newline_pieces(s: Seq<char>) -> Seq<Seq<char>>
    decreases s.len(),
{
    if s.len() == 0 {
        seq![Seq::empty()]
    } else {
        let rest = newline_pieces(s.drop_last());
        if s.last() == '\n' {
            rest.push(Seq::empty())
        } else {
            rest.update(rest.len() - 1, rest.last().push(s.last()))
        }
    }
}

pub open spec fn strip_cr(l: Seq<char>) -> Seq<char> {
    if l.len() > 0 && l.last() == '\r' {
        l.drop_last()
    } else {
        l
    }
}

/// The lines of `s`: a line ends at `\n` or `\r\n`, and the final line ending
/// is optional.
pub open spec fn text_lines(s: Seq<char>) -> Seq<Seq<char>> {
    let p = newline_pieces(s);
    let ended = p.take(p.len() - 1).map_values(|l: Seq<char>| strip_cr(l));
    if p.last().len() == 0 {
        ended
    } else {
        ended.push(p.last())
    }
}

pub open spec fn views_of(v: Seq<String>) -> Seq<Seq<char>> {
    v.map_values(|s: String| s@)
}

/// Relies on `str::lines`: it splits at `\n` and at `\r\n`, leaves the line
/// endings out, and yields no line after a final line ending.
#[verifier::external_body]
pub(crate) fn lines_of(s: &str) -> (r: Vec<String>)
    ensures
        views_of(r@) == text_lines(s@),
{
    s.lines().map(String::from).collect()
}

/// Relies on `regex::Regex::new` and `regex::Regex::split` with the fixed
/// pattern `\s+`: the pattern compiles, it matches the maximal runs of Unicode
/// white space, and `split` yields the pieces between consecutive matches,
/// with an empty piece before a leading match and after a trailing one.
#[verifier::external_body]
pub(crate) fn split_white_space_runs(line: &str) -> (r: Vec<String>)
    ensures
        views_of(r@) == split_on_white_space(line@),
{
    let re = regex::Regex::new(r"\s+").unwrap();
    re.split(line).map(String::from).collect()
}

/// Relies on `String`'s `FromIterator<char>`: the string holds the characters
/// in order.
#[verifier::external_body]
pub(crate) fn string_from_chars(v: &Vec<char>) -> (r: String)
    ensures
        r@ == v@,
{
    v.iter().collect()
}

/// The characters of `s`, in order.
pub fn chars_of(s: &str) -> (r: Vec<char>)
    ensures
        r@ == s@,
{
    let mut out: Vec<char> = Vec::new();
    for c in it: s.chars()
        invariant
            out@ == it.seq().take(it.index() as int),
            it.seq() == s@,
    {
        out.push(c);
    }
    out
}

/// Whether `a` holds exactly the characters of `b`.
pub fn same_text(a: &Vec<char>, b: &str) -> (r: bool)
    ensures
        r == (a@ == b@),
{
    let bc = chars_of(b);
    if a.len() != bc.len() {
        return false;
    }
    let mut i: usize = 0;
    while i < a.len()
        invariant
            a@.len() == bc@.len(),
            bc@ == b@,
            0 <= i <= a@.len(),
            forall|k: int| 0 <= k < i ==> a@[k] == bc@[k],
        decreases a@.len() - i,
    {
        if a[i] != bc[i] {
            assert(a@[i as int] != bc@[i as int]);
            return false;
        }
        i = i + 1;
    }
    assert(a@ =~= bc@);
    true
}

/// Whether some character of `l` is not white space.
pub open spec fn has_content(l: Seq<char>) -> bool {
    exists|i: int| 0 <= i < l.len() && !is_white_space(#[trigger] l[i])
}

pub fn not_blank(l: &Vec<char>) -> (r: bool)
    ensures
        r == has_content(l@),
{
    let mut i: usize = 0;
    while i < l.len()
        invariant
            0 <= i <= l@.len(),
            forall|k: int| 0 <= k < i ==> is_white_space(#[trigger] l@[k]),
        decreases l@.len() - i,
    {
        if !white_space(l[i]) {
            return true;
        }
        i = i + 1;
    }
    false
}

pub open spec fn is_digit(c: char) -> bool {
    '0' <= c <= '9'
}

pub open spec fn digit_value(c: char) -> nat {
    if c == '1' {
        1
    } else if c == '2' {
        2
    } else if c == '3' {
        3
    } else if c == '4' {
        4
    } else if c == '5' {
        5
    } else if c == '6' {
        6
    } else if c == '7' {
        7
    } else if c == '8' {
        8
    } else if c == '9' {
        9
    } else {
        0
    }
}

fn char_digit(c: char) -> (r: usize)
    ensures
        r == digit_value(c),
        r < 10,
{
    if c == '1' {
        1
    } else if c == '2' {
        2
    } else if c == '3' {
        3
    } else if c == '4' {
        4
    } else if c == '5' {
        5
    } else if c == '6' {
        6
    } else if c == '7' {
        7
    } else if c == '8' {
        8
    } else if c == '9' {
        9
    } else {
        0
    }
}

/// The value of a sequence of decimal digits, most significant first.
pub open spec fn digits_value(d: Seq<char>) -> nat
    decreases d.len(),
{
    if d.len() == 0 {
        0
    } else {
        digits_value(d.drop_last()) * 10 + digit_value(d.last())
    }
}

pub open spec fn all_digits(d: Seq<char>) -> bool {
    forall|i: int| 0 <= i < d.len() ==> is_digit(#[trigger] d[i])
}

pub open spec fn unsigned_digits(t: Seq<char>) -> Seq<char> {
    if t.len() > 0 && t[0] == '+' {
        t.drop_first()
    } else {
        t
    }
}

/// What `usize::from_str` accepts, ignoring the bound: an optional `+`
/// followed by one or more decimal digits.
pub open spec fn is_unsigned_text(t: Seq<char>) -> bool {
    let d = unsigned_digits(t);
    d.len() > 0 && all_digits(d)
}

pub open spec fn unsigned_value(t: Seq<char>) -> nat {
    digits_value(unsigned_digits(t))
}

proof fn lemma_digits_value_prefix(d: Seq<char>, k: int)
    requires
        0 <= k <= d.len(),
    ensures
        digits_value(d.take(k)) <= digits_value(d),
    decreases d.len() - k,
{
    if k < d.len() {
        lemma_digits_value_prefix(d, k + 1);
        assert(d.take(k + 1).drop_last() =~= d.take(k));
    } else {
        assert(d.take(k) =~= d);
    }
}

/// Reads `t` as `usize::from_str` does.
pub fn parse_usize(t: &Vec<char>) -> (r: Option<usize>)
    ensures
        r == (if is_unsigned_text(t@) && unsigned_value(t@) <= usize::MAX {
            Some(unsigned_value(t@) as usize)
        } else {
            None
        }),
{
    let start: usize = if t.len() > 0 && t[0] == '+' {
        1
    } else {
        0
    };
    let ghost d = unsigned_digits(t@);
    assert(d =~= t@.skip(start as int));
    if start >= t.len() {
        return None;
    }
    let mut value: usize = 0;
    let mut i: usize = start;
    while i < t.len()
        invariant
            start <= i <= t@.len(),
            d == unsigned_digits(t@),
            d =~= t@.skip(start as int),
            d.len() > 0,
            all_digits(d.take(i - start)),
            value as nat == digits_value(d.take(i - start)),
        decreases t@.len() - i,
    {
        let c = t[i];
        if c < '0' || c > '9' {
            assert(!is_digit(d[i - start]));
            assert(!all_digits(d));
            return None;
        }
        let dv: usize = char_digit(c);
        assert(d.take(i + 1 - start).drop_last() =~= d.take(i - start));
        if value > (usize::MAX - dv) / 10 {
            let mut j: usize = i + 1;
            while j < t.len()
                invariant
                    start < j <= t@.len(),
                    d == unsigned_digits(t@),
                    d =~= t@.skip(start as int),
                    digits_value(d.take(j - start)) > usize::MAX,
                decreases t@.len() - j,
            {
                let c2 = t[j];
                if c2 < '0' || c2 > '9' {
                    assert(!is_digit(d[j - start]));
                    assert(!all_digits(d));
                    return None;
                }
                assert(d.take(j + 1 - start).drop_last() =~= d.take(j - start));
                j = j + 1;
            }
            proof {
                lemma_digits_value_prefix(d, j - start);
            }
            assert(d.take(j - start) =~= d);
            return None;
        }
        value = value * 10 + dv;
        i = i + 1;
    }
    assert(d.take(i - start) =~= d);
    Some(value)
}

pub open spec fn digit_char(n: nat) -> char
    recommends
        n < 10,
{
    if n == 0 {
        '0'
    } else if n == 1 {
        '1'
    } else if n == 2 {
        '2'
    } else if n == 3 {
        '3'
    } else if n == 4 {
        '4'
    } else if n == 5 {
        '5'
    } else if n == 6 {
        '6'
    } else if n == 7 {
        '7'
    } else if n == 8 {
        '8'
    } else {
        '9'
    }
}

/// The decimal digits of `n`, most significant first, without leading zeros.
pub open spec fn decimal_of(n: nat) -> Seq<char>
    decreases n,
{
    if n < 10 {
        seq![digit_char(n)]
    } else {
        decimal_of(n / 10).push(digit_char(n % 10))
    }
}

fn digit_to_char(n: usize) -> (c: char)
    requires
        n < 10,
    ensures
        c == digit_char(n as nat),
{
    if n == 0 {
        '0'
    } else if n == 1 {
        '1'
    } else if n == 2 {
        '2'
    } else if n == 3 {
        '3'
    } else if n == 4 {
        '4'
    } else if n == 5 {
        '5'
    } else if n == 6 {
        '6'
    } else if n == 7 {
        '7'
    } else if n == 8 {
        '8'
    } else {
        '9'
    }
}

/// The decimal text of `n`.
pub fn decimal_text(n: usize) -> (r: String)
    ensures
        r@ == decimal_of(n as nat),
{
    // Digits from the least significant one.
    let mut rev: Vec<char> = Vec::new();
    let mut m: usize = n;
    while m >= 10
        invariant
            decimal_of(n as nat) == decimal_of(m as nat) + rev@.reverse(),
        decreases m,
    {
        let ghost old_rev = rev@;
        rev.push(digit_to_char(m % 10));
        assert(rev@.reverse() =~= seq![digit_char((m % 10) as nat)] + old_rev.reverse());
        assert(decimal_of(m as nat) == decimal_of((m / 10) as nat).push(digit_char((m % 10) as nat)));
        assert(decimal_of((m / 10) as nat).push(digit_char((m % 10) as nat)) + old_rev.reverse()
            =~= decimal_of((m / 10) as nat) + rev@.reverse());
        m = m / 10;
    }
    rev.push(digit_to_char(m));
    let mut out: Vec<char> = Vec::new();
    let mut i: usize = rev.len();
    while i > 0
        invariant
            0 <= i <= rev@.len(),
            out@ =~= rev@.subrange(i as int, rev@.len() as int).reverse(),
        decreases i,
    {
        i = i - 1;
        out.push(rev[i]);
        assert(out@ =~= rev@.subrange(i as int, rev@.len() as int).reverse());
    }
    assert(out@ =~= decimal_of(n as nat));
    string_from_chars(&out)
}

pub open spec fn is_sign(c: char) -> bool {
    c == '+' || c == '-'
}

pub open spec fn is_exp_marker(c: char) -> bool {
    c == 'e' || c == 'E'
}

/// Decimal digits with at most one `.` among them, and at least one digit.
pub open spec fn is_mantissa(m: Seq<char>) -> bool {
    &&& forall|i: int| 0 <= i < m.len() ==> is_digit(#[trigger] m[i]) || m[i] == '.'
    &&& forall|i: int, j: int|
        0 <= i < j < m.len() && #[trigger] m[i] == '.' ==> #[trigger] m[j] != '.'
    &&& exists|i: int| 0 <= i < m.len() && is_digit(#[trigger] m[i])
}

/// What follows an exponent marker: an optional sign, then one or more digits.
pub open spec fn is_exponent(x: Seq<char>) -> bool {
    let d = if x.len() > 0 && is_sign(x[0]) {
        x.drop_first()
    } else {
        x
    };
    d.len() > 0 && all_digits(d)
}

pub open spec fn no_exp_marker(b: Seq<char>) -> bool {
    forall|i: int| 0 <= i < b.len() ==> !is_exp_marker(#[trigger] b[i])
}

pub open spec fn is_decimal_number(b: Seq<char>) -> bool {
    ||| no_exp_marker(b) && is_mantissa(b)
    ||| exists|e: int|
        0 <= e < b.len() && is_exp_marker(#[trigger] b[e]) && no_exp_marker(b.take(e))
            && is_mantissa(b.take(e)) && is_exponent(b.skip(e + 1))
}

/// `b` spells `lower` with each letter in either case (`upper` is `lower` in
/// capitals).
pub open spec fn spells(b: Seq<char>, lower: Seq<char>, upper: Seq<char>) -> bool {
    b.len() == lower.len() && forall|i: int|
        0 <= i < b.len() ==> #[trigger] b[i] == lower[i] || b[i] == upper[i]
}

pub open spec fn is_special_real(b: Seq<char>) -> bool {
    ||| spells(b, seq!['i', 'n', 'f'], seq!['I', 'N', 'F'])
    ||| spells(
        b,
        seq!['i', 'n', 'f', 'i', 'n', 'i', 't', 'y'],
        seq!['I', 'N', 'F', 'I', 'N', 'I', 'T', 'Y'],
    )
    ||| spells(b, seq!['n', 'a', 'n'], seq!['N', 'A', 'N'])
}

/// What `f64::from_str` accepts: an optional sign, then `inf`, `infinity` or
/// `nan` in any case, or a decimal number with an optional exponent.
pub open spec fn is_real_text(t: Seq<char>) -> bool {
    let b = if t.len() > 0 && is_sign(t[0]) {
        t.drop_first()
    } else {
        t
    };
    is_special_real(b) || is_decimal_number(b)
}

fn spells_at(t: &Vec<char>, from: usize, lower: &Vec<char>, upper: &Vec<char>) -> (r: bool)
    requires
        from <= t@.len(),
        lower@.len() == upper@.len(),
    ensures
        r == spells(t@.skip(from as int), lower@, upper@),
{
    let ghost b = t@.skip(from as int);
    if t.len() - from != lower.len() {
        return false;
    }
    let mut i: usize = 0;
    while i < lower.len()
        invariant
            b == t@.skip(from as int),
            lower@.len() == upper@.len(),
            b.len() == lower@.len(),
            from + lower@.len() == t@.len(),
            t@.len() == t.len(),
            0 <= i <= lower@.len(),
            forall|k: int| 0 <= k < i ==> #[trigger] b[k] == lower@[k] || b[k] == upper@[k],
        decreases lower@.len() - i,
    {
        let c = t[from + i];
        if c != lower[i] && c != upper[i] {
            assert(!(b[i as int] == lower@[i as int] || b[i as int] == upper@[i as int]));
            return false;
        }
        i = i + 1;
    }
    true
}

fn check_mantissa(t: &Vec<char>, from: usize, to: usize) -> (r: bool)
    requires
        from <= to <= t@.len(),
    ensures
        r == is_mantissa(t@.subrange(from as int, to as int)),
{
    let ghost m = t@.subrange(from as int, to as int);
    let mut dot_at: Option<usize> = None;
    let mut digit_seen = false;
    let mut i: usize = from;
    while i < to
        invariant
            m == t@.subrange(from as int, to as int),
            from <= i <= to <= t@.len(),
            forall|k: int| 0 <= k < i - from ==> is_digit(#[trigger] m[k]) || m[k] == '.',
            match dot_at {
                None => forall|k: int| 0 <= k < i - from ==> #[trigger] m[k] != '.',
                Some(d) => from <= d < i && m[d - from] == '.' && forall|k: int|
                    0 <= k < i - from && k != d - from ==> #[trigger] m[k] != '.',
            },
            digit_seen <==> exists|k: int| 0 <= k < i - from && is_digit(#[trigger] m[k]),
        decreases to - i,
    {
        let c = t[i];
        let ghost k = i - from;
        assert(m[k] == c);
        if c == '.' {
            match dot_at {
                Some(d) => {
                    assert(m[d - from] == '.' && m[k] == '.');
                    return false;
                },
                None => {
                    dot_at = Some(i);
                },
            }
        } else if '0' <= c && c <= '9' {
            digit_seen = true;
        } else {
            assert(!(is_digit(m[k]) || m[k] == '.'));
            return false;
        }
        i = i + 1;
    }
    digit_seen
}

fn check_exponent(t: &Vec<char>, from: usize) -> (r: bool)
    requires
        from <= t@.len(),
    ensures
        r == is_exponent(t@.skip(from as int)),
{
    let ghost x = t@.skip(from as int);
    let start: usize = if from < t.len() && (t[from] == '+' || t[from] == '-') {
        from + 1
    } else {
        from
    };
    let ghost d = if x.len() > 0 && is_sign(x[0]) {
        x.drop_first()
    } else {
        x
    };
    assert(d =~= t@.skip(start as int));
    if start >= t.len() {
        assert(d.len() == 0);
        assert(!is_exponent(x));
        return false;
    }
    let mut i: usize = start;
    while i < t.len()
        invariant
            start <= i <= t@.len(),
            d =~= t@.skip(start as int),
            x == t@.skip(from as int),
            d == (if x.len() > 0 && is_sign(x[0]) {
                x.drop_first()
            } else {
                x
            }),
            d.len() > 0,
            forall|k: int| 0 <= k < i - start ==> is_digit(#[trigger] d[k]),
        decreases t@.len() - i,
    {
        let c = t[i];
        if c < '0' || c > '9' {
            assert(!is_digit(d[i - start]));
            assert(!all_digits(d));
            return false;
        }
        i = i + 1;
    }
    true
}

/// Whether `f64::from_str` accepts `t`.
pub fn is_real(t: &Vec<char>) -> (r: bool)
    ensures
        r == is_real_text(t@),
{
    let start: usize = if t.len() > 0 && (t[0] == '+' || t[0] == '-') {
        1
    } else {
        0
    };
    let ghost b = if t@.len() > 0 && is_sign(t@[0]) {
        t@.drop_first()
    } else {
        t@
    };
    assert(b =~= t@.skip(start as int));
    let inf_l = vec!['i', 'n', 'f'];
    let inf_u = vec!['I', 'N', 'F'];
    let infinity_l = vec!['i', 'n', 'f', 'i', 'n', 'i', 't', 'y'];
    let infinity_u = vec!['I', 'N', 'F', 'I', 'N', 'I', 'T', 'Y'];
    let nan_l = vec!['n', 'a', 'n'];
    let nan_u = vec!['N', 'A', 'N'];
    if spells_at(t, start, &inf_l, &inf_u) || spells_at(t, start, &infinity_l, &infinity_u)
        || spells_at(t, start, &nan_l, &nan_u) {
        return true;
    }
    assert(!is_special_real(b));
    let mut f: usize = start;
    while f < t.len() && t[f] != 'e' && t[f] != 'E'
        invariant
            start <= f <= t@.len(),
            b =~= t@.skip(start as int),
            forall|k: int| 0 <= k < f - start ==> !is_exp_marker(#[trigger] b[k]),
        decreases t@.len() - f,
    {
        f = f + 1;
    }
    let ghost e = f - start;
    let mantissa_ok = check_mantissa(t, start, f);
    assert(t@.subrange(start as int, f as int) =~= b.take(e));
    if f == t.len() {
        assert(b.take(e) =~= b);
        assert(no_exp_marker(b));
        assert forall|e2: int|
            0 <= e2 < b.len() && is_exp_marker(#[trigger] b[e2]) implies false by {}
        return mantissa_ok;
    }
    assert(is_exp_marker(b[e]));
    assert(!no_exp_marker(b));
    let exponent_ok = check_exponent(t, f + 1);
    assert(t@.skip(f + 1) =~= b.skip(e + 1));
    assert forall|e2: int|
        0 <= e2 < b.len() && is_exp_marker(#[trigger] b[e2]) && no_exp_marker(b.take(e2))
            implies e2 == e by {
        if e2 > e {
            assert(b.take(e2)[e] == b[e]);
        }
    }
    mantissa_ok && exponent_ok
}

} // verus!
