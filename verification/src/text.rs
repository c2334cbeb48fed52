//! Character-level text helpers: whitespace, trimming, ASCII case folding,
//! splitting, number parsing and formatting, and comparison, each stated
//! over `Seq<char>`.
use vstd::prelude::*;

verus! {

broadcast use vstd::string::group_string_axioms;

// ---------------------------------------------------------------------------
// Specifications
// ---------------------------------------------------------------------------

/// `char::is_whitespace`: the Unicode `White_Space` property.
pub open spec fn is_ws(c: char) -> bool {
    ||| ('\u{9}' <= c && c <= '\u{d}')
    ||| c == ' '
    ||| c == '\u{85}'
    ||| c == '\u{a0}'
    ||| c == '\u{1680}'
    ||| ('\u{2000}' <= c && c <= '\u{200a}')
    ||| c == '\u{2028}'
    ||| c == '\u{2029}'
    ||| c == '\u{202f}'
    ||| c == '\u{205f}'
    ||| c == '\u{3000}'
}

/// `char::to_ascii_lowercase`.
pub open spec fn lower_char(c: char) -> char {
    if 'A' <= c && c <= 'Z' {
        ((c as u32) + 32) as char
    } else {
        c
    }
}

/// `str::to_ascii_lowercase`.
pub open spec fn lower(s: Seq<char>) -> Seq<char> {
    s.map_values(|c: char| lower_char(c))
}

/// `str::eq_ignore_ascii_case`.
pub open spec fn eq_ignore_case(a: Seq<char>, b: Seq<char>) -> bool {
    lower(a) == lower(b)
}

/// `str::trim_start`.
pub open spec fn trim_start(s: Seq<char>) -> Seq<char>
    decreases s.len(),
{
    if s.len() > 0 && is_ws(s[0]) {
        trim_start(s.drop_first())
    } else {
        s
    }
}

/// `str::trim_end`.
pub open spec fn trim_end(s: Seq<char>) -> Seq<char>
    decreases s.len(),
{
    if s.len() > 0 && is_ws(s.last()) {
        trim_end(s.drop_last())
    } else {
        s
    }
}

/// `str::trim`.
pub open spec fn trim(s: Seq<char>) -> Seq<char> {
    trim_end(trim_start(s))
}

/// `str::trim_start_matches(c)`.
pub open spec fn strip_leading(s: Seq<char>, c: char) -> Seq<char>
    decreases s.len(),
{
    if s.len() > 0 && s[0] == c {
        strip_leading(s.drop_first(), c)
    } else {
        s
    }
}

/// `str::trim_end_matches(c)`.
pub open spec fn strip_trailing(s: Seq<char>, c: char) -> Seq<char>
    decreases s.len(),
{
    if s.len() > 0 && s.last() == c {
        strip_trailing(s.drop_last(), c)
    } else {
        s
    }
}

/// `str::trim_matches(c)`.
pub open spec fn trim_matches(s: Seq<char>, c: char) -> Seq<char> {
    strip_trailing(strip_leading(s, c), c)
}

/// The index of the first `c` in `s`, or `s.len()` when there is none.
pub open spec fn find_char(s: Seq<char>, c: char) -> nat
    decreases s.len(),
{
    if s.len() == 0 {
        0
    } else if s[0] == c {
        0
    } else {
        1 + find_char(s.drop_first(), c)
    }
}

/// The part of `s` before its first `c` (all of `s` when there is none):
/// `s.split(c).next()`.
pub open spec fn before_char(s: Seq<char>, c: char) -> Seq<char> {
    s.take(find_char(s, c) as int)
}

/// `s.split(c)`: the pieces between occurrences of `c`.
pub open spec fn split_on(s: Seq<char>, c: char) -> Seq<Seq<char>>
    decreases s.len(),
{
    if find_char(s, c) < s.len() {
        seq![s.take(find_char(s, c) as int)] + split_on(s.skip(find_char(s, c) + 1int), c)
    } else {
        seq![s]
    }
}

/// The length of the leading run of non-whitespace characters of `s`.
pub open spec fn word_len(s: Seq<char>) -> nat
    decreases s.len(),
{
    if s.len() == 0 || is_ws(s[0]) {
        0
    } else {
        1 + word_len(s.drop_first())
    }
}

/// `str::split_whitespace`: the maximal runs of non-whitespace characters.
pub open spec fn split_ws(s: Seq<char>) -> Seq<Seq<char>>
    decreases s.len(),
{
    let t = trim_start(s);
    if t.len() == 0 {
        seq![]
    } else {
        proof {
            lemma_trim_start_len(s);
            lemma_word_len_facts(t);
        }
        seq![t.take(word_len(t) as int)] + split_ws(t.skip(word_len(t) as int))
    }
}

/// `s` begins with `p`.
pub open spec fn starts_with(s: Seq<char>, p: Seq<char>) -> bool {
    p.len() <= s.len() && s.take(p.len() as int) == p
}

/// `s` ends with `p`.
pub open spec fn ends_with(s: Seq<char>, p: Seq<char>) -> bool {
    p.len() <= s.len() && s.skip(s.len() - p.len()) == p
}

/// `p` occurs in `s` at position `i`.
pub open spec fn occurs_at(s: Seq<char>, p: Seq<char>, i: int) -> bool {
    0 <= i && i + p.len() <= s.len() && s.subrange(i, i + p.len()) == p
}

/// `str::contains` with a string pattern.
pub open spec fn contains_seq(s: Seq<char>, p: Seq<char>) -> bool {
    exists|i: int| occurs_at(s, p, i)
}

/// Lexicographic order by code point: the order of `String`'s `Ord`.
pub open spec fn lex_lt(a: Seq<char>, b: Seq<char>) -> bool
    decreases a.len(),
{
    if a.len() == 0 {
        b.len() > 0
    } else if b.len() == 0 {
        false
    } else if a[0] != b[0] {
        a[0] < b[0]
    } else {
        lex_lt(a.drop_first(), b.drop_first())
    }
}

/// An ASCII decimal digit.
pub open spec fn is_digit(c: char) -> bool {
    '0' <= c && c <= '9'
}

/// An ASCII hexadecimal digit (`char::is_ascii_hexdigit`).
pub open spec fn is_hex_digit(c: char) -> bool {
    is_digit(c) || ('a' <= c && c <= 'f') || ('A' <= c && c <= 'F')
}

/// The value of a string of decimal digits.
pub open spec fn digits_value(s: Seq<char>) -> nat
    decreases s.len(),
{
    if s.len() == 0 {
        0
    } else {
        digits_value(s.drop_last()) * 10 + ((s.last() as u32) - ('0' as u32)) as nat
    }
}

/// The digits part of an unsigned number: `s` without one leading `+`.
pub open spec fn unsigned_digits(s: Seq<char>) -> Seq<char> {
    if s.len() > 0 && s[0] == '+' {
        s.drop_first()
    } else {
        s
    }
}

/// Every character of `d` is a decimal digit.
pub open spec fn all_digits(d: Seq<char>) -> bool {
    forall|i: int| 0 <= i < d.len() ==> is_digit(#[trigger] d[i])
}

/// `from_str` of an unsigned type whose largest value is `max`: an optional
/// `+`, then one or more decimal digits whose value is at most `max`.
pub open spec fn parse_unsigned_spec(s: Seq<char>, max: nat) -> Option<nat> {
    let d = unsigned_digits(s);
    if d.len() > 0 && all_digits(d) && digits_value(d) <= max {
        Some(digits_value(d))
    } else {
        None
    }
}

/// `u16::from_str`.
pub open spec fn parse_u16_spec(s: Seq<char>) -> Option<u16> {
    match parse_unsigned_spec(s, u16::MAX as nat) {
        Some(v) => Some(v as u16),
        None => None,
    }
}

/// `u32::from_str`.
pub open spec fn parse_u32_spec(s: Seq<char>) -> Option<u32> {
    match parse_unsigned_spec(s, u32::MAX as nat) {
        Some(v) => Some(v as u32),
        None => None,
    }
}

/// The decimal digit for `d < 10`.
pub open spec fn digit_char(d: nat) -> char {
    (('0' as u32) + d) as char
}

/// The decimal representation of `n`, without leading zeros.
pub open spec fn decimal(n: nat) -> Seq<char>
    decreases n,
{
    if n < 10 {
        seq![digit_char(n)]
    } else {
        decimal(n / 10).push(digit_char(n % 10))
    }
}

/// The decimal representation of a signed integer (`i64::to_string`).
pub open spec fn signed_decimal(n: int) -> Seq<char> {
    if n < 0 {
        seq!['-'] + decimal((-n) as nat)
    } else {
        decimal(n as nat)
    }
}


/// A piece of text without one trailing `\r`.
pub open spec fn strip_cr(s: Seq<char>) -> Seq<char> {
    if s.len() > 0 && s.last() == '\r' {
        s.drop_last()
    } else {
        s
    }
}

/// `str::lines`: the pieces between `\n` characters, each without a
/// trailing `\r` where a `\n` ended it, and without an empty last piece.
pub open spec fn lines(s: Seq<char>) -> Seq<Seq<char>> {
    let p = split_on(s, '\n');
    let k = p.len() - 1;
    p.take(k).map_values(|x: Seq<char>| strip_cr(x)) + if p[k].len() == 0 {
        Seq::<Seq<char>>::empty()
    } else {
        seq![p[k]]
    }
}

/// The pieces of `parts` separated by `sep`: `[&str]::join`.
pub open spec fn join_with(parts: Seq<Seq<char>>, sep: Seq<char>) -> Seq<char>
    decreases parts.len(),
{
    if parts.len() == 0 {
        seq![]
    } else if parts.len() == 1 {
        parts[0]
    } else {
        join_with(parts.drop_last(), sep) + sep + parts.last()
    }
}

// ---------------------------------------------------------------------------
// Lemmas
// ---------------------------------------------------------------------------

pub proof fn lemma_trim_start_len(s: Seq<char>)
    ensures
        trim_start(s).len() <= s.len(),
        trim_start(s).len() > 0 ==> !is_ws(trim_start(s)[0]),
        exists|k: int| 0 <= k <= s.len() && trim_start(s) == #[trigger] s.skip(k),
    decreases s.len(),
{
    if s.len() > 0 && is_ws(s[0]) {
        lemma_trim_start_len(s.drop_first());
        let k = choose|k: int| 0 <= k <= s.drop_first().len() && trim_start(s.drop_first()) == #[trigger] s.drop_first().skip(k);
        assert(s.drop_first().skip(k) =~= s.skip(k + 1));
    } else {
        assert(s.skip(0) =~= s);
    }
}

pub proof fn lemma_word_len_facts(s: Seq<char>)
    ensures
        word_len(s) <= s.len(),
        forall|i: int| 0 <= i < word_len(s) ==> !is_ws(#[trigger] s[i]),
        word_len(s) < s.len() ==> is_ws(s[word_len(s) as int]),
        s.len() > 0 && !is_ws(s[0]) ==> word_len(s) > 0,
    decreases s.len(),
{
    if s.len() > 0 && !is_ws(s[0]) {
        lemma_word_len_facts(s.drop_first());
        assert forall|i: int| 0 <= i < word_len(s) implies !is_ws(#[trigger] s[i]) by {
            if i > 0 {
                assert(s[i] == s.drop_first()[i - 1]);
            }
        }
    }
}

/// Skipping `i` leading whitespace characters does not change `trim_start`.
proof fn lemma_trim_start_skip(s: Seq<char>, i: int)
    requires
        0 <= i <= s.len(),
        forall|k: int| 0 <= k < i ==> is_ws(#[trigger] s[k]),
    ensures
        trim_start(s) == trim_start(s.skip(i)),
    decreases i,
{
    if i > 0 {
        assert(s.drop_first().skip(i - 1) =~= s.skip(i));
        assert forall|k: int| 0 <= k < i - 1 implies is_ws(#[trigger] s.drop_first()[k]) by {
            assert(s.drop_first()[k] == s[k + 1]);
        }
        lemma_trim_start_skip(s.drop_first(), i - 1);
    } else {
        assert(s.skip(0) =~= s);
    }
}

/// Dropping `n - j` trailing whitespace characters does not change `trim_end`.
proof fn lemma_trim_end_take(s: Seq<char>, j: int)
    requires
        0 <= j <= s.len(),
        forall|k: int| j <= k < s.len() ==> is_ws(#[trigger] s[k]),
    ensures
        trim_end(s) == trim_end(s.take(j)),
    decreases s.len() - j,
{
    if j < s.len() {
        assert(s.drop_last().take(j) =~= s.take(j));
        lemma_trim_end_take(s.drop_last(), j);
    } else {
        assert(s.take(j) =~= s);
    }
}

pub proof fn lemma_find_char_facts(s: Seq<char>, c: char)
    ensures
        find_char(s, c) <= s.len(),
        forall|i: int| 0 <= i < find_char(s, c) ==> #[trigger] s[i] != c,
        find_char(s, c) < s.len() ==> s[find_char(s, c) as int] == c,
    decreases s.len(),
{
    if s.len() > 0 && s[0] != c {
        lemma_find_char_facts(s.drop_first(), c);
        assert forall|i: int| 0 <= i < find_char(s, c) implies #[trigger] s[i] != c by {
            if i > 0 {
                assert(s[i] == s.drop_first()[i - 1]);
            }
        }
    }
}

/// `find_char` is the first index at which `c` occurs.
pub proof fn lemma_find_char_is(s: Seq<char>, c: char, i: int)
    requires
        0 <= i <= s.len(),
        forall|k: int| 0 <= k < i ==> #[trigger] s[k] != c,
        i < s.len() ==> s[i] == c,
    ensures
        find_char(s, c) == i,
    decreases i,
{
    if i > 0 {
        assert forall|k: int| 0 <= k < i - 1 implies #[trigger] s.drop_first()[k] != c by {
            assert(s.drop_first()[k] == s[k + 1]);
        }
        if i - 1 < s.drop_first().len() {
            assert(s.drop_first()[i - 1] == s[i]);
        }
        lemma_find_char_is(s.drop_first(), c, i - 1);
    }
}

proof fn lemma_strip_leading_skip(s: Seq<char>, c: char, i: int)
    requires
        0 <= i <= s.len(),
        forall|k: int| 0 <= k < i ==> #[trigger] s[k] == c,
    ensures
        strip_leading(s, c) == strip_leading(s.skip(i), c),
    decreases i,
{
    if i > 0 {
        assert(s.drop_first().skip(i - 1) =~= s.skip(i));
        assert forall|k: int| 0 <= k < i - 1 implies #[trigger] s.drop_first()[k] == c by {
            assert(s.drop_first()[k] == s[k + 1]);
        }
        lemma_strip_leading_skip(s.drop_first(), c, i - 1);
    } else {
        assert(s.skip(0) =~= s);
    }
}

proof fn lemma_strip_trailing_take(s: Seq<char>, c: char, j: int)
    requires
        0 <= j <= s.len(),
        forall|k: int| j <= k < s.len() ==> #[trigger] s[k] == c,
    ensures
        strip_trailing(s, c) == strip_trailing(s.take(j), c),
    decreases s.len() - j,
{
    if j < s.len() {
        assert(s.drop_last().take(j) =~= s.take(j));
        lemma_strip_trailing_take(s.drop_last(), c, j);
    } else {
        assert(s.take(j) =~= s);
    }
}

/// Law: `lex_lt` is irreflexive.
pub proof fn lemma_lex_lt_irreflexive(a: Seq<char>)
    ensures
        !lex_lt(a, a),
    decreases a.len(),
{
    if a.len() > 0 {
        lemma_lex_lt_irreflexive(a.drop_first());
    }
}

/// Law: `lex_lt` is transitive.
pub proof fn lemma_lex_lt_transitive(a: Seq<char>, b: Seq<char>, c: Seq<char>)
    requires
        lex_lt(a, b),
        lex_lt(b, c),
    ensures
        lex_lt(a, c),
    decreases a.len(),
{
    if a.len() > 0 && b.len() > 0 && c.len() > 0 && a[0] == b[0] && b[0] == c[0] {
        lemma_lex_lt_transitive(a.drop_first(), b.drop_first(), c.drop_first());
    }
}

/// Law: of two different sequences, one is `lex_lt` the other.
pub proof fn lemma_lex_lt_total(a: Seq<char>, b: Seq<char>)
    ensures
        a == b || lex_lt(a, b) || lex_lt(b, a),
    decreases a.len(),
{
    if a.len() > 0 && b.len() > 0 && a[0] == b[0] {
        lemma_lex_lt_total(a.drop_first(), b.drop_first());
        if a.drop_first() == b.drop_first() {
            assert(a =~= seq![a[0]] + a.drop_first());
            assert(b =~= seq![b[0]] + b.drop_first());
        }
    } else if a.len() == 0 && b.len() == 0 {
        assert(a =~= b);
    }
}


proof fn lemma_lower_char_facts(c: char)
    ensures
        is_ws(lower_char(c)) == is_ws(c),
        lower_char(lower_char(c)) == lower_char(c),
{
}

proof fn lemma_trim_start_lower(s: Seq<char>)
    ensures
        trim_start(lower(s)) == lower(trim_start(s)),
    decreases s.len(),
{
    if s.len() > 0 {
        lemma_lower_char_facts(s[0]);
        if is_ws(s[0]) {
            assert(lower(s).drop_first() =~= lower(s.drop_first()));
            lemma_trim_start_lower(s.drop_first());
        }
    } else {
        assert(lower(s) =~= Seq::<char>::empty());
    }
}

proof fn lemma_trim_end_lower(s: Seq<char>)
    ensures
        trim_end(lower(s)) == lower(trim_end(s)),
    decreases s.len(),
{
    if s.len() > 0 {
        lemma_lower_char_facts(s.last());
        assert(lower(s).last() == lower_char(s.last()));
        if is_ws(s.last()) {
            assert(lower(s).drop_last() =~= lower(s.drop_last()));
            lemma_trim_end_lower(s.drop_last());
        }
    } else {
        assert(lower(s) =~= Seq::<char>::empty());
    }
}

/// Law: trimming commutes with ASCII lower-casing, and lower-casing twice
/// lower-cases no more than once.
pub proof fn lemma_trim_lower(s: Seq<char>)
    ensures
        trim(lower(s)) == lower(trim(s)),
        lower(lower(s)) == lower(s),
{
    lemma_trim_start_lower(s);
    lemma_trim_end_lower(trim_start(s));
    assert forall|k: int| 0 <= k < s.len() implies lower(lower(s))[k] == lower(s)[k] by {
        lemma_lower_char_facts(s[k]);
    }
    assert(lower(lower(s)) =~= lower(s));
}

/// Law: a trimmed sequence, when not empty, starts and ends with a
/// non-whitespace character.
pub proof fn lemma_trim_ends(s: Seq<char>)
    ensures
        trim(s).len() > 0 ==> !is_ws(trim(s)[0]) && !is_ws(trim(s).last()),
{
    lemma_trim_start_len(s);
    lemma_trim_end_facts(trim_start(s));
    let t = trim(s);
    if t.len() > 0 {
        assert(t[0] == trim_start(s)[0]);
    }
}

/// A sequence that starts and ends with non-whitespace is its own trim.
pub proof fn lemma_trim_of_solid(s: Seq<char>)
    requires
        s.len() > 0,
        !is_ws(s[0]),
        !is_ws(s.last()),
    ensures
        trim(s) == s,
{
    assert(trim_start(s) == s);
    assert(trim_end(s) == s);
}

/// Law: the part before the first `c` has no `c`, and cutting again at
/// `c` leaves it as it is.
pub proof fn lemma_before_char_facts(s: Seq<char>, c: char)
    ensures
        forall|i: int| 0 <= i < before_char(s, c).len() ==> #[trigger] before_char(s, c)[i] != c,
        before_char(before_char(s, c), c) == before_char(s, c),
{
    lemma_find_char_facts(s, c);
    let b = before_char(s, c);
    assert forall|i: int| 0 <= i < b.len() implies #[trigger] b[i] != c by {
        assert(b[i] == s[i]);
    }
    lemma_find_char_is(b, c, b.len() as int);
    assert(b.take(b.len() as int) =~= b);
}

/// Law: no piece of `split_on(s, c)` holds `c`.
pub proof fn lemma_split_on_pieces(s: Seq<char>, c: char)
    ensures
        forall|i: int, k: int|
            0 <= i < split_on(s, c).len() && 0 <= k < split_on(s, c)[i].len() ==> #[trigger] split_on(
                s,
                c,
            )[i][k] != c,
    decreases s.len(),
{
    lemma_find_char_facts(s, c);
    let f = find_char(s, c);
    if f < s.len() {
        lemma_split_on_pieces(s.skip(f + 1int), c);
        let r = split_on(s, c);
        let rest = split_on(s.skip(f + 1int), c);
        assert forall|i: int, k: int| 0 <= i < r.len() && 0 <= k < r[i].len() implies #[trigger] r[i][k] != c by {
            if i == 0 {
                assert(r[0] == s.take(f as int));
                assert(r[0][k] == s[k]);
            } else {
                assert(r[i] == rest[i - 1]);
            }
        }
    }
}

/// A sequence without `c` is a single piece.
proof fn lemma_split_on_single(s: Seq<char>, c: char)
    requires
        forall|k: int| 0 <= k < s.len() ==> #[trigger] s[k] != c,
    ensures
        split_on(s, c) == seq![s],
{
    lemma_find_char_is(s, c, s.len() as int);
}

/// Splitting at `c` around a `c` splits each side.
pub proof fn lemma_split_on_around(x: Seq<char>, y: Seq<char>, c: char)
    ensures
        split_on(x + seq![c] + y, c) == split_on(x, c) + split_on(y, c),
    decreases x.len(),
{
    let w = x + seq![c] + y;
    lemma_find_char_facts(x, c);
    let f = find_char(x, c);
    if f < x.len() {
        assert forall|k: int| 0 <= k < f implies #[trigger] w[k] != c by {
            assert(w[k] == x[k]);
        }
        lemma_find_char_is(w, c, f as int);
        assert(w.take(f as int) =~= x.take(f as int));
        assert(w.skip(f + 1int) =~= x.skip(f + 1int) + seq![c] + y);
        lemma_split_on_around(x.skip(f + 1int), y, c);
        assert(split_on(x, c) == seq![x.take(f as int)] + split_on(x.skip(f + 1int), c));
        assert(split_on(w, c) =~= split_on(x, c) + split_on(y, c));
    } else {
        assert forall|k: int| 0 <= k < x.len() implies #[trigger] w[k] != c by {
            assert(w[k] == x[k]);
        }
        lemma_find_char_is(w, c, x.len() as int);
        assert(w.take(x.len() as int) =~= x);
        assert(w.skip(x.len() + 1int) =~= y);
        lemma_split_on_single(x, c);
        assert(split_on(w, c) =~= split_on(x, c) + split_on(y, c));
    }
}

/// Law: joining pieces without `c` by `c` and splitting at `c` again gives
/// back the pieces.
pub proof fn lemma_split_on_join(ps: Seq<Seq<char>>, c: char)
    requires
        ps.len() > 0,
        forall|i: int, k: int| 0 <= i < ps.len() && 0 <= k < ps[i].len() ==> #[trigger] ps[i][k] != c,
    ensures
        split_on(join_with(ps, seq![c]), c) == ps,
    decreases ps.len(),
{
    let l = ps.last();
    assert forall|k: int| 0 <= k < l.len() implies #[trigger] l[k] != c by {
        assert(l[k] == ps[ps.len() - 1][k]);
    }
    lemma_split_on_single(l, c);
    if ps.len() == 1 {
        assert(ps =~= seq![ps[0]]);
    } else {
        let front = ps.drop_last();
        assert forall|i: int, k: int| 0 <= i < front.len() && 0 <= k < front[i].len() implies #[trigger] front[i][k] != c by {
            assert(front[i] == ps[i]);
        }
        lemma_split_on_join(front, c);
        lemma_split_on_around(join_with(front, seq![c]), l, c);
        assert(ps =~= front + seq![l]);
    }
}

proof fn lemma_trim_start_push_ws(x: Seq<char>, w: char)
    requires
        is_ws(w),
    ensures
        trim_start(x.push(w)) == (if trim_start(x).len() > 0 {
            trim_start(x).push(w)
        } else {
            Seq::<char>::empty()
        }),
    decreases x.len(),
{
    if x.len() == 0 {
        let e = Seq::<char>::empty();
        assert(x.push(w).drop_first() =~= e);
        assert(trim_start(e) == e);
        assert(x.push(w)[0] == w);
        assert(trim_start(x) == x);
    } else if is_ws(x[0]) {
        assert(x.push(w)[0] == x[0]);
        assert(x.push(w).drop_first() =~= x.drop_first().push(w));
        lemma_trim_start_push_ws(x.drop_first(), w);
    } else {
        assert(x.push(w)[0] == x[0]);
    }
}

/// Law: a trailing whitespace character makes no difference to the trim.
pub proof fn lemma_trim_push_ws(x: Seq<char>, w: char)
    requires
        is_ws(w),
    ensures
        trim(x.push(w)) == trim(x),
{
    lemma_trim_start_push_ws(x, w);
    let t = trim_start(x);
    if t.len() > 0 {
        assert(t.push(w).drop_last() =~= t);
    } else {
        assert(trim_end(Seq::<char>::empty()) == Seq::<char>::empty());
    }
}

/// Law: trimming twice trims no more than once.
pub proof fn lemma_trim_idempotent(s: Seq<char>)
    ensures
        trim(trim(s)) == trim(s),
{
    lemma_trim_start_len(s);
    let t = trim(s);
    lemma_trim_end_facts(trim_start(s));
    if t.len() > 0 {
        assert(trim_start(t) == t);
        assert(trim_end(t) == t);
    } else {
        assert(trim_start(t) =~= t);
    }
}

proof fn lemma_trim_end_facts(s: Seq<char>)
    ensures
        trim_end(s).len() <= s.len(),
        trim_end(s) == s.take(trim_end(s).len() as int),
        trim_end(s).len() > 0 ==> !is_ws(trim_end(s).last()),
    decreases s.len(),
{
    if s.len() > 0 && is_ws(s.last()) {
        lemma_trim_end_facts(s.drop_last());
        assert(s.drop_last().take(trim_end(s).len() as int) =~= s.take(trim_end(s).len() as int));
    } else {
        assert(s.take(s.len() as int) =~= s);
    }
}


/// Law: the words of `split_whitespace` are non-empty and hold no
/// whitespace.
pub proof fn lemma_split_ws_words(s: Seq<char>)
    ensures
        forall|i: int|
            0 <= i < split_ws(s).len() ==> (#[trigger] split_ws(s)[i]).len() > 0 && (forall|k: int|
                0 <= k < split_ws(s)[i].len() ==> !is_ws(split_ws(s)[i][k])),
    decreases s.len(),
{
    let t = trim_start(s);
    lemma_trim_start_len(s);
    if t.len() > 0 {
        lemma_word_len_facts(t);
        let w = t.take(word_len(t) as int);
        let rest = t.skip(word_len(t) as int);
        lemma_split_ws_words(rest);
        let r = split_ws(s);
        assert(r == seq![w] + split_ws(rest));
        assert forall|i: int| 0 <= i < r.len() implies (#[trigger] r[i]).len() > 0 && (forall|k: int|
            0 <= k < r[i].len() ==> !is_ws(r[i][k])) by {
            if i == 0 {
                assert(r[0] == w);
                assert forall|k: int| 0 <= k < w.len() implies !is_ws(w[k]) by {
                    assert(w[k] == t[k]);
                }
            } else {
                assert(r[i] == split_ws(rest)[i - 1]);
            }
        }
    }
}

/// Law: a sequence without whitespace is its own trim.
pub proof fn lemma_trim_no_ws(s: Seq<char>)
    requires
        forall|k: int| 0 <= k < s.len() ==> !is_ws(s[k]),
    ensures
        trim(s) == s,
{
    if s.len() > 0 {
        assert(trim_start(s) == s);
        assert(trim_end(s) == s);
    } else {
        assert(trim_start(s) == s);
    }
}

// ---------------------------------------------------------------------------
// Executable helpers
// ---------------------------------------------------------------------------

/// `String::push`: appends one character.
#[verifier::external_body]
fn string_push(s: &mut String, c: char)
    ensures
        final(s)@ == old(s)@.push(c),
{
    s.push(c);
}

/// Whether `c` is whitespace, as `char::is_whitespace` answers.
pub fn char_is_whitespace(c: char) -> (r: bool)
    ensures
        r == is_ws(c),
{
    ('\u{9}' <= c && c <= '\u{d}') || c == ' ' || c == '\u{85}' || c == '\u{a0}' || c == '\u{1680}'
        || ('\u{2000}' <= c && c <= '\u{200a}') || c == '\u{2028}' || c == '\u{2029}' || c
        == '\u{202f}' || c == '\u{205f}' || c == '\u{3000}'
}

/// `char::to_ascii_lowercase`.
pub fn char_to_lower(c: char) -> (r: char)
    ensures
        r == lower_char(c),
{
    if 'A' <= c && c <= 'Z' {
        let b = (c as u32) + 32;
        char_from_ascii(b)
    } else {
        c
    }
}

/// The character with the given code below 128.
fn char_from_ascii(b: u32) -> (c: char)
    requires
        b < 128,
    ensures
        c == b as char,
{
    let x: u8 = b as u8;
    x as char
}

/// The characters of a string slice, in order.
pub fn chars_of(s: &str) -> (v: Vec<char>)
    ensures
        v@ == s@,
{
    let mut v: Vec<char> = Vec::new();
    for c in it: s.chars()
        invariant
            it.seq() == s@,
            v@ == it.seq().take(it.index() as int),
    {
        v.push(c);
    }
    v
}

/// The string made of the given characters.
pub fn string_of(s: &[char]) -> (r: String)
    ensures
        r@ == s@,
{
    let mut r = String::new();
    let mut i: usize = 0;
    while i < s.len()
        invariant
            i <= s@.len(),
            r@ == s@.take(i as int),
        decreases s@.len() - i,
    {
        string_push(&mut r, s[i]);
        i = i + 1;
        assert(r@ =~= s@.take(i as int));
    }
    assert(s@.take(i as int) =~= s@);
    r
}

/// `s[from..to]` as a vector.
pub fn slice_of(s: &[char], from: usize, to: usize) -> (r: Vec<char>)
    requires
        from <= to <= s@.len(),
    ensures
        r@ == s@.subrange(from as int, to as int),
{
    let mut r: Vec<char> = Vec::new();
    let mut i: usize = from;
    while i < to
        invariant
            from <= i <= to <= s@.len(),
            r@ == s@.subrange(from as int, i as int),
        decreases to - i,
    {
        r.push(s[i]);
        i = i + 1;
        assert(r@ =~= s@.subrange(from as int, i as int));
    }
    r
}

/// `a + b`.
pub fn concat(a: &[char], b: &[char]) -> (r: Vec<char>)
    ensures
        r@ == a@ + b@,
{
    let mut r = slice_of(a, 0, a.len());
    let mut i: usize = 0;
    while i < b.len()
        invariant
            i <= b@.len(),
            r@ == a@ + b@.take(i as int),
        decreases b@.len() - i,
    {
        r.push(b[i]);
        i = i + 1;
        assert(r@ =~= a@ + b@.take(i as int));
    }
    assert(a@.subrange(0, a@.len() as int) =~= a@);
    assert(b@.take(i as int) =~= b@);
    r
}

/// The bounds `(start, end)` of `trim(s)` within `s`.
pub fn trim_bounds(s: &[char]) -> (r: (usize, usize))
    ensures
        r.0 <= r.1 <= s@.len(),
        trim(s@) == s@.subrange(r.0 as int, r.1 as int),
{
    let n = s.len();
    let mut i: usize = 0;
    while i < n && char_is_whitespace(s[i])
        invariant
            i <= n == s@.len(),
            forall|k: int| 0 <= k < i ==> is_ws(#[trigger] s@[k]),
        decreases n - i,
    {
        i = i + 1;
    }
    proof {
        lemma_trim_start_skip(s@, i as int);
        if i < n {
            assert(trim_start(s@.skip(i as int)) == s@.skip(i as int));
        } else {
            assert(s@.skip(i as int).len() == 0);
        }
    }
    let ghost t = s@.skip(i as int);
    let mut j: usize = n;
    while j > i && char_is_whitespace(s[j - 1])
        invariant
            i <= j <= n == s@.len(),
            t == s@.skip(i as int),
            forall|k: int| j - i <= k < t.len() ==> is_ws(#[trigger] t[k]),
        decreases j,
    {
        j = j - 1;
        assert(t[j - i] == s@[j as int]);
    }
    proof {
        lemma_trim_end_take(t, j - i);
        let u = t.take(j - i);
        assert(u =~= s@.subrange(i as int, j as int));
        if j > i {
            assert(u.last() == s@[j - 1]);
        }
    }
    (i, j)
}

/// `str::trim`.
pub fn trim_chars(s: &[char]) -> (r: Vec<char>)
    ensures
        r@ == trim(s@),
{
    let (a, b) = trim_bounds(s);
    slice_of(s, a, b)
}

/// `str::to_ascii_lowercase`.
pub fn to_lower(s: &[char]) -> (r: Vec<char>)
    ensures
        r@ == lower(s@),
{
    let mut r: Vec<char> = Vec::new();
    let mut i: usize = 0;
    while i < s.len()
        invariant
            i <= s@.len(),
            r@ == lower(s@.take(i as int)),
        decreases s@.len() - i,
    {
        let c = char_to_lower(s[i]);
        r.push(c);
        i = i + 1;
        assert(r@ =~= lower(s@.take(i as int)));
    }
    assert(s@.take(i as int) =~= s@);
    r
}

/// `a == b` on character sequences.
pub fn chars_eq(a: &[char], b: &[char]) -> (r: bool)
    ensures
        r == (a@ == b@),
{
    if a.len() != b.len() {
        return false;
    }
    let mut i: usize = 0;
    while i < a.len()
        invariant
            i <= a@.len() == b@.len(),
            forall|k: int| 0 <= k < i ==> a@[k] == b@[k],
        decreases a@.len() - i,
    {
        if a[i] != b[i] {
            return false;
        }
        i = i + 1;
    }
    assert(a@ =~= b@);
    true
}

/// `str::eq_ignore_ascii_case`.
pub fn chars_eq_ignore_case(a: &[char], b: &[char]) -> (r: bool)
    ensures
        r == eq_ignore_case(a@, b@),
{
    let la = to_lower(a);
    let lb = to_lower(b);
    chars_eq(la.as_slice(), lb.as_slice())
}

/// Whether `c` occurs in `s`.
pub fn contains_char(s: &[char], c: char) -> (r: bool)
    ensures
        r == s@.contains(c),
{
    let mut i: usize = 0;
    while i < s.len()
        invariant
            i <= s@.len(),
            forall|k: int| 0 <= k < i ==> s@[k] != c,
        decreases s@.len() - i,
    {
        if s[i] == c {
            assert(s@[i as int] == c);
            return true;
        }
        i = i + 1;
    }
    false
}

/// The index of the first `c` in `s`, or `s.len()`.
pub fn find_char_index(s: &[char], c: char) -> (r: usize)
    ensures
        r == find_char(s@, c),
        r <= s@.len(),
{
    let mut i: usize = 0;
    while i < s.len() && s[i] != c
        invariant
            i <= s@.len(),
            forall|k: int| 0 <= k < i ==> #[trigger] s@[k] != c,
        decreases s@.len() - i,
    {
        i = i + 1;
    }
    proof {
        lemma_find_char_is(s@, c, i as int);
    }
    i
}

/// `s.split(c).next().unwrap_or_default()`: the part before the first `c`.
pub fn before_first(s: &[char], c: char) -> (r: Vec<char>)
    ensures
        r@ == before_char(s@, c),
{
    let i = find_char_index(s, c);
    slice_of(s, 0, i)
}

/// `str::trim_matches(c)`.
pub fn trim_matches_char(s: &[char], c: char) -> (r: Vec<char>)
    ensures
        r@ == trim_matches(s@, c),
{
    let n = s.len();
    let mut i: usize = 0;
    while i < n && s[i] == c
        invariant
            i <= n == s@.len(),
            forall|k: int| 0 <= k < i ==> #[trigger] s@[k] == c,
        decreases n - i,
    {
        i = i + 1;
    }
    proof {
        lemma_strip_leading_skip(s@, c, i as int);
        if i < n {
            assert(strip_leading(s@.skip(i as int), c) == s@.skip(i as int));
        } else {
            assert(s@.skip(i as int).len() == 0);
        }
    }
    let ghost t = s@.skip(i as int);
    let mut j: usize = n;
    while j > i && s[j - 1] == c
        invariant
            i <= j <= n == s@.len(),
            t == s@.skip(i as int),
            forall|k: int| j - i <= k < t.len() ==> #[trigger] t[k] == c,
        decreases j,
    {
        j = j - 1;
        assert(t[j - i] == s@[j as int]);
    }
    proof {
        lemma_strip_trailing_take(t, c, j - i);
        let u = t.take(j - i);
        assert(u =~= s@.subrange(i as int, j as int));
        if j > i {
            assert(u.last() == s@[j - 1]);
        }
    }
    slice_of(s, i, j)
}

/// Whether `s` begins with `p`.
pub fn chars_start_with(s: &[char], p: &[char]) -> (r: bool)
    ensures
        r == starts_with(s@, p@),
{
    if p.len() > s.len() {
        return false;
    }
    let mut i: usize = 0;
    while i < p.len()
        invariant
            i <= p@.len() <= s@.len(),
            forall|k: int| 0 <= k < i ==> s@[k] == p@[k],
        decreases p@.len() - i,
    {
        if s[i] != p[i] {
            assert(s@.take(p@.len() as int)[i as int] != p@[i as int]);
            return false;
        }
        i = i + 1;
    }
    assert(s@.take(p@.len() as int) =~= p@);
    true
}

/// Whether `s` ends with `p`.
pub fn chars_end_with(s: &[char], p: &[char]) -> (r: bool)
    ensures
        r == ends_with(s@, p@),
{
    if p.len() > s.len() {
        return false;
    }
    let off = s.len() - p.len();
    let mut i: usize = 0;
    while i < p.len()
        invariant
            off == s@.len() - p@.len(),
            s@.len() == s.len(),
            i <= p@.len() <= s@.len(),
            forall|k: int| 0 <= k < i ==> s@[off + k] == p@[k],
        decreases p@.len() - i,
    {
        if s[off + i] != p[i] {
            assert(s@.skip(off as int)[i as int] != p@[i as int]);
            return false;
        }
        i = i + 1;
    }
    assert(s@.skip(off as int) =~= p@);
    true
}

/// Whether `p` occurs at position `i` of `s`.
fn occurs_at_exec(s: &[char], p: &[char], i: usize) -> (r: bool)
    ensures
        r == occurs_at(s@, p@, i as int),
{
    if i > s.len() || p.len() > s.len() - i {
        return false;
    }
    let mut k: usize = 0;
    while k < p.len()
        invariant
            i + p@.len() <= s@.len(),
            s@.len() == s.len(),
            k <= p@.len(),
            forall|m: int| 0 <= m < k ==> s@[i + m] == p@[m],
        decreases p@.len() - k,
    {
        if s[i + k] != p[k] {
            assert(s@.subrange(i as int, i + p@.len())[k as int] != p@[k as int]);
            return false;
        }
        k = k + 1;
    }
    assert(s@.subrange(i as int, i + p@.len()) =~= p@);
    true
}

/// `str::contains` with a string pattern.
pub fn chars_contain(s: &[char], p: &[char]) -> (r: bool)
    ensures
        r == contains_seq(s@, p@),
{
    let mut i: usize = 0;
    while i < s.len()
        invariant
            i <= s@.len(),
            forall|m: int| 0 <= m < i ==> !occurs_at(s@, p@, m),
        decreases s@.len() - i,
    {
        if occurs_at_exec(s, p, i) {
            return true;
        }
        i = i + 1;
    }
    if occurs_at_exec(s, p, i) {
        return true;
    }
    assert forall|m: int| !occurs_at(s@, p@, m) by {
        if 0 <= m && m <= i {
        }
    }
    false
}


proof fn lemma_word_len_is(t: Seq<char>, w: int)
    requires
        0 <= w <= t.len(),
        forall|m: int| 0 <= m < w ==> !is_ws(#[trigger] t[m]),
        w < t.len() ==> is_ws(t[w]),
    ensures
        word_len(t) == w,
    decreases w,
{
    if w > 0 {
        assert forall|m: int| 0 <= m < w - 1 implies !is_ws(#[trigger] t.drop_first()[m]) by {
            assert(t.drop_first()[m] == t[m + 1]);
        }
        if w - 1 < t.drop_first().len() {
            assert(t.drop_first()[w - 1] == t[w]);
        }
        lemma_word_len_is(t.drop_first(), w - 1);
    }
}

proof fn lemma_digits_value_push(d: Seq<char>, c: char)
    ensures
        digits_value(d.push(c)) == digits_value(d) * 10 + (((c as u32) - ('0' as u32)) as nat),
{
    assert(d.push(c).drop_last() =~= d);
}

proof fn lemma_digits_value_grows(d: Seq<char>, k: int)
    requires
        0 <= k <= d.len(),
        forall|i: int| 0 <= i < d.len() ==> is_digit(#[trigger] d[i]),
    ensures
        digits_value(d.take(k)) <= digits_value(d),
    decreases d.len() - k,
{
    if k < d.len() {
        lemma_digits_value_grows(d, k + 1);
        assert(d.take(k + 1) =~= d.take(k).push(d[k]));
        lemma_digits_value_push(d.take(k), d[k]);
    } else {
        assert(d.take(k) =~= d);
    }
}

/// Splits `s` at whitespace, as `str::split_whitespace` does.
pub fn split_whitespace(s: &[char]) -> (r: Vec<Vec<char>>)
    ensures
        crate::order::views(r@) == split_ws(s@),
{
    let n = s.len();
    let mut words: Vec<Vec<char>> = Vec::new();
    let mut i: usize = 0;
    assert(s@.skip(0) =~= s@);
    assert(crate::order::views(words@) =~= Seq::<Seq<char>>::empty());
    loop
        invariant
            i <= n == s@.len(),
            crate::order::views(words@) + split_ws(s@.skip(i as int)) == split_ws(s@),
        decreases n - i,
    {
        let ghost u = s@.skip(i as int);
        let mut k: usize = i;
        while k < n && char_is_whitespace(s[k])
            invariant
                i <= k <= n == s@.len(),
                u == s@.skip(i as int),
                forall|m: int| 0 <= m < k - i ==> is_ws(#[trigger] u[m]),
            decreases n - k,
        {
            assert(u[k - i] == s@[k as int]);
            k = k + 1;
        }
        proof {
            lemma_trim_start_skip(u, k - i);
            assert(u.skip(k - i) =~= s@.skip(k as int));
            if k < n {
                assert(trim_start(s@.skip(k as int)) == s@.skip(k as int));
            }
        }
        if k == n {
            assert(split_ws(u) =~= Seq::<Seq<char>>::empty());
            assert(crate::order::views(words@) =~= crate::order::views(words@) + split_ws(u));
            return words;
        }
        let ghost t = s@.skip(k as int);
        let mut j: usize = k;
        while j < n && !char_is_whitespace(s[j])
            invariant
                k <= j <= n == s@.len(),
                t == s@.skip(k as int),
                forall|m: int| 0 <= m < j - k ==> !is_ws(#[trigger] t[m]),
            decreases n - j,
        {
            assert(t[j - k] == s@[j as int]);
            j = j + 1;
        }
        proof {
            if j < n {
                assert(t[j - k] == s@[j as int]);
            }
            lemma_word_len_is(t, j - k);
            assert(t.take(j - k) =~= s@.subrange(k as int, j as int));
            assert(t.skip(j - k) =~= s@.skip(j as int));
        }
        let w = slice_of(s, k, j);
        let ghost before = crate::order::views(words@);
        words.push(w);
        proof {
            assert(crate::order::views(words@) =~= before.push(w@));
            assert(split_ws(u) == seq![t.take(word_len(t) as int)] + split_ws(t.skip(word_len(t) as int)));
            assert(before + split_ws(u) =~= before.push(w@) + split_ws(s@.skip(j as int)));
        }
        i = j;
    }
}

/// Splits `s` at every `c`, as `str::split(c)` does.
pub fn split_at_char(s: &[char], c: char) -> (r: Vec<Vec<char>>)
    ensures
        crate::order::views(r@) == split_on(s@, c),
{
    let n = s.len();
    let mut pieces: Vec<Vec<char>> = Vec::new();
    let mut i: usize = 0;
    assert(s@.skip(0) =~= s@);
    assert(crate::order::views(pieces@) =~= Seq::<Seq<char>>::empty());
    loop
        invariant
            i <= n == s@.len(),
            crate::order::views(pieces@) + split_on(s@.skip(i as int), c) == split_on(s@, c),
        decreases n - i,
    {
        let ghost u = s@.skip(i as int);
        let mut j: usize = i;
        while j < n && s[j] != c
            invariant
                i <= j <= n == s@.len(),
                u == s@.skip(i as int),
                forall|m: int| 0 <= m < j - i ==> #[trigger] u[m] != c,
            decreases n - j,
        {
            assert(u[j - i] == s@[j as int]);
            j = j + 1;
        }
        proof {
            if j < n {
                assert(u[j - i] == s@[j as int]);
            }
            lemma_find_char_is(u, c, j - i);
            assert(u.take(j - i) =~= s@.subrange(i as int, j as int));
        }
        let piece = slice_of(s, i, j);
        let ghost before = crate::order::views(pieces@);
        pieces.push(piece);
        assert(crate::order::views(pieces@) =~= before.push(piece@));
        if j == n {
            assert(u.take(j - i) =~= u);
            assert(split_on(u, c) == seq![u]);
            assert(before + split_on(u, c) =~= before.push(piece@));
            return pieces;
        }
        proof {
            assert(u.skip(j - i + 1) =~= s@.skip(j + 1));
            assert(before + split_on(u, c) =~= before.push(piece@) + split_on(s@.skip(j + 1), c));
        }
        i = j + 1;
    }
}

/// `from_str` of an unsigned type whose largest value is `max`.
fn parse_unsigned(s: &[char], max: u64) -> (r: Option<u64>)
    requires
        max <= u32::MAX,
    ensures
        match r {
            Some(v) => parse_unsigned_spec(s@, max as nat) == Some(v as nat),
            None => parse_unsigned_spec(s@, max as nat) is None,
        },
{
    let n = s.len();
    let mut i: usize = 0;
    if n > 0 && s[0] == '+' {
        i = 1;
    }
    let ghost d = unsigned_digits(s@);
    assert(d =~= s@.skip(i as int));
    if i == n {
        return None;
    }
    let mut v: u64 = 0;
    let mut k: usize = i;
    while k < n
        invariant
            i <= k <= n == s@.len(),
            i < n,
            max <= u32::MAX,
            d == s@.skip(i as int),
            d == unsigned_digits(s@),
            forall|m: int| 0 <= m < k - i ==> is_digit(#[trigger] d[m]),
            v == digits_value(d.take(k - i)),
            v <= max,
        decreases n - k,
    {
        let ch = s[k];
        assert(d[k - i] == ch);
        if !('0' <= ch && ch <= '9') {
            assert(!is_digit(d[k - i]));
            return None;
        }
        let dv = (ch as u64) - ('0' as u64);
        proof {
            assert(d.take(k - i + 1) =~= d.take(k - i).push(ch));
            lemma_digits_value_push(d.take(k - i), ch);
        }
        v = v * 10 + dv;
        k = k + 1;
        if v > max {
            proof {
                if all_digits(d) {
                    lemma_digits_value_grows(d, k - i);
                }
            }
            return None;
        }
    }
    assert(d.take(k - i) =~= d);
    Some(v)
}

/// `u16::from_str`.
pub fn parse_u16(s: &[char]) -> (r: Option<u16>)
    ensures
        r == parse_u16_spec(s@),
{
    match parse_unsigned(s, 65535) {
        Some(v) => Some(v as u16),
        None => None,
    }
}

/// `u32::from_str`.
pub fn parse_u32(s: &[char]) -> (r: Option<u32>)
    ensures
        r == parse_u32_spec(s@),
{
    match parse_unsigned(s, 4294967295) {
        Some(v) => Some(v as u32),
        None => None,
    }
}

/// The decimal digit character for `d < 10`.
fn digit_of(d: u64) -> (c: char)
    requires
        d < 10,
    ensures
        c == digit_char(d as nat),
{
    char_from_ascii((d as u32) + 48)
}

/// `u64::to_string`.
pub fn decimal_u64(n: u64) -> (r: Vec<char>)
    ensures
        r@ == decimal(n as nat),
    decreases n,
{
    if n < 10 {
        let mut r: Vec<char> = Vec::new();
        r.push(digit_of(n));
        assert(r@ =~= seq![digit_char(n as nat)]);
        r
    } else {
        let mut r = decimal_u64(n / 10);
        r.push(digit_of(n % 10));
        r
    }
}

/// `i64::to_string`.
pub fn decimal_i64(n: i64) -> (r: Vec<char>)
    ensures
        r@ == signed_decimal(n as int),
{
    if n < 0 {
        let m: u64 = if n == i64::MIN {
            9223372036854775808u64
        } else {
            (-n) as u64
        };
        let digits = decimal_u64(m);
        let mut r: Vec<char> = Vec::new();
        r.push('-');
        let r2 = concat(r.as_slice(), digits.as_slice());
        assert(r@ =~= seq!['-']);
        r2
    } else {
        decimal_u64(n as u64)
    }
}

/// Whether `a` comes strictly before `b` in the order of `String`'s `Ord`.
pub fn chars_lt(a: &[char], b: &[char]) -> (r: bool)
    ensures
        r == lex_lt(a@, b@),
{
    let mut i: usize = 0;
    assert(a@.skip(0) =~= a@ && b@.skip(0) =~= b@);
    while i < a.len() && i < b.len() && a[i] == b[i]
        invariant
            i <= a@.len(),
            i <= b@.len(),
            lex_lt(a@, b@) == lex_lt(a@.skip(i as int), b@.skip(i as int)),
        decreases a@.len() - i,
    {
        proof {
            let x = a@.skip(i as int);
            let y = b@.skip(i as int);
            assert(x.drop_first() =~= a@.skip(i + 1));
            assert(y.drop_first() =~= b@.skip(i + 1));
        }
        i = i + 1;
    }
    proof {
        let x = a@.skip(i as int);
        let y = b@.skip(i as int);
        if i < a.len() && i < b.len() {
            assert(x[0] == a@[i as int] && y[0] == b@[i as int]);
        }
    }
    if i == a.len() {
        i < b.len()
    } else if i == b.len() {
        false
    } else {
        a[i] < b[i]
    }
}


/// An owned copy of a string slice.
pub fn owned(s: &str) -> (r: String)
    ensures
        r@ == s@,
{
    s.to_string()
}

/// The characters of a `String`.
pub fn chars_of_string(s: &String) -> (v: Vec<char>)
    ensures
        v@ == s@,
{
    chars_of(s.as_str())
}


/// The length of the leading run of non-whitespace characters of `s`.
pub fn word_length(s: &[char]) -> (r: usize)
    ensures
        r == word_len(s@),
        r <= s@.len(),
{
    let mut j: usize = 0;
    while j < s.len() && !char_is_whitespace(s[j])
        invariant
            j <= s@.len(),
            forall|m: int| 0 <= m < j ==> !is_ws(#[trigger] s@[m]),
        decreases s@.len() - j,
    {
        j = j + 1;
    }
    proof {
        lemma_word_len_is(s@, j as int);
    }
    j
}


pub proof fn lemma_split_on_nonempty(s: Seq<char>, c: char)
    ensures
        split_on(s, c).len() >= 1,
    decreases s.len(),
{
    lemma_find_char_facts(s, c);
    if find_char(s, c) < s.len() {
        lemma_split_on_nonempty(s.skip(find_char(s, c) + 1int), c);
    }
}

/// Splits `s` into lines, as `str::lines` does.
pub fn split_lines(s: &[char]) -> (r: Vec<Vec<char>>)
    ensures
        crate::order::views(r@) == lines(s@),
{
    let pieces = split_at_char(s, '\n');
    let ghost p = crate::order::views(pieces@);
    proof {
        lemma_split_on_nonempty(s@, '\n');
    }
    let k = pieces.len() - 1;
    let mut out: Vec<Vec<char>> = Vec::new();
    let mut i: usize = 0;
    assert(crate::order::views(out@) =~= p.take(0).map_values(|x: Seq<char>| strip_cr(x)));
    while i < k
        invariant
            p == crate::order::views(pieces@),
            k == pieces@.len() - 1,
            i <= k,
            crate::order::views(out@) == p.take(i as int).map_values(|x: Seq<char>| strip_cr(x)),
        decreases k - i,
    {
        let piece = &pieces[i];
        proof {
            crate::order::lemma_views_index(pieces@, i as int);
        }
        let n = piece.len();
        let line = if n > 0 && piece[n - 1] == '\r' {
            slice_of(piece.as_slice(), 0, n - 1)
        } else {
            slice_of(piece.as_slice(), 0, n)
        };
        assert(line@ == strip_cr(p[i as int])) by {
            assert(piece@.subrange(0, n as int) =~= piece@);
            if n > 0 {
                assert(piece@.subrange(0, n - 1) =~= piece@.drop_last());
            }
        }
        let ghost before = crate::order::views(out@);
        out.push(line);
        assert(crate::order::views(out@) =~= before.push(line@));
        assert(p.take(i + 1int).map_values(|x: Seq<char>| strip_cr(x)) =~= p.take(i as int).map_values(
            |x: Seq<char>| strip_cr(x),
        ).push(strip_cr(p[i as int])));
        i = i + 1;
    }
    proof {
        crate::order::lemma_views_index(pieces@, k as int);
    }
    if pieces[k].len() > 0 {
        let last = slice_of(pieces[k].as_slice(), 0, pieces[k].len());
        assert(last@ =~= p[k as int]);
        let ghost before = crate::order::views(out@);
        out.push(last);
        assert(crate::order::views(out@) =~= before + seq![p[k as int]]);
    } else {
        assert(crate::order::views(out@) =~= crate::order::views(out@) + Seq::<Seq<char>>::empty());
    }
    out
}

/// `parts.join(sep)`.
pub fn join_chars(parts: &[Vec<char>], sep: &[char]) -> (r: Vec<char>)
    ensures
        r@ == join_with(crate::order::views(parts@), sep@),
{
    let ghost pv = crate::order::views(parts@);
    let mut r: Vec<char> = Vec::new();
    let mut i: usize = 0;
    assert(pv.take(0) =~= Seq::<Seq<char>>::empty());
    while i < parts.len()
        invariant
            pv == crate::order::views(parts@),
            i <= parts@.len(),
            r@ == join_with(pv.take(i as int), sep@),
        decreases parts@.len() - i,
    {
        proof {
            crate::order::lemma_views_index(parts@, i as int);
        }
        proof {
            let t = pv.take(i + 1int);
            assert(t.drop_last() =~= pv.take(i as int));
            assert(t.last() == parts@[i as int]@);
        }
        if i == 0 {
            r = slice_of(parts[0].as_slice(), 0, parts[0].len());
            assert(r@ =~= parts@[0]@);
        } else {
            let with_sep = concat(r.as_slice(), sep);
            r = concat(with_sep.as_slice(), parts[i].as_slice());
        }
        i = i + 1;
    }
    assert(pv.take(i as int) =~= pv);
    r
}

} // verus!
