//! Text produced for the user interface: decimal numbers, durations,
//! release years, artist lists, blank-query detection and URL query encoding.

use vstd::prelude::*;

verus! {

broadcast use vstd::string::group_string_axioms;

/// The ASCII digit for `d` (which is below ten).
pub open spec fn digit_char(d: nat) -> char {
    ((48 + d) as u32) as char
}

/// Decimal representation of `n`, without leading zeros ("0" for zero).
pub open spec fn decimal(n: nat) -> Seq<char>
    decreases n,
{
    if n < 10 {
        seq![digit_char(n)]
    } else {
        decimal(n / 10).push(digit_char(n % 10))
    }
}

/// The characters of `s`, in order.
pub fn chars_of(s: &str) -> (v: Vec<char>)
    ensures
        v@ == s@,
{
    let mut v: Vec<char> = Vec::new();
    for c in it: s.chars()
        invariant
            v@ == it.seq().take(it.index() as int),
    {
        v.push(c);
    }
    v
}

/// std's `String::push`: afterwards the string is what it was with `c`
/// added at the end.
#[verifier::external_body]
pub(crate) fn push_char(s: &mut String, c: char)
    ensures
        final(s)@ == old(s)@.push(c),
{
    s.push(c);
}

/// The character of the decimal digit `d`.
fn digit(d: u32) -> (c: char)
    requires
        d < 10,
    ensures
        c == digit_char(d as nat),
{
    match d {
        0 => '0',
        1 => '1',
        2 => '2',
        3 => '3',
        4 => '4',
        5 => '5',
        6 => '6',
        7 => '7',
        8 => '8',
        _ => '9',
    }
}

/// Appends the decimal digits of `n` to `s`.
pub(crate) fn push_decimal(s: &mut String, n: u32)
    ensures
        final(s)@ == old(s)@ + decimal(n as nat),
    decreases n,
{
    if n >= 10 {
        push_decimal(s, n / 10);
    }
    push_char(s, digit(n % 10));
    assert(n >= 10 ==> decimal(n as nat) == decimal((n / 10) as nat).push(digit_char((n % 10) as nat)));
}

/// The decimal representation of `n`, as `n.to_string()` gives it.
pub fn decimal_string(n: u32) -> (r: String)
    ensures
        r@ == decimal(n as nat),
{
    let mut s = String::new();
    push_decimal(&mut s, n);
    assert(s@ =~= decimal(n as nat));
    s
}


/// Zero-padded two-digit representation of `n` (which is below one hundred).
pub open spec fn two_digits(n: nat) -> Seq<char> {
    seq![digit_char(n / 10), digit_char(n % 10)]
}

/// The text shown for a track length given in milliseconds: whole minutes,
/// a colon and the remaining whole seconds on two digits; nothing when the
/// length is unknown.
pub open spec fn duration_text(ms: Option<u32>) -> Seq<char> {
    match ms {
        None => Seq::empty(),
        Some(v) => {
            let secs = v as nat / 1000;
            decimal(secs / 60) + seq![':'] + two_digits(secs % 60)
        },
    }
}

/// Formats a track length, e.g. `Some(215_000)` as "3:35" and `None` as "".
pub fn format_duration(ms: Option<u32>) -> (r: String)
    ensures
        r@ == duration_text(ms),
{
    let v = match ms {
        Some(v) => v,
        None => return String::new(),
    };
    let total_secs = v / 1000;
    let mut s = String::new();
    push_decimal(&mut s, total_secs / 60);
    push_char(&mut s, ':');
    let rem = total_secs % 60;
    push_char(&mut s, digit(rem / 10));
    push_char(&mut s, digit(rem % 10));
    assert(s@ =~= duration_text(ms));
    s
}

/// The text shown for a release year: its decimal digits, or "????" when
/// the year is unknown.
pub open spec fn year_text(year: Option<u32>) -> Seq<char> {
    match year {
        Some(y) => decimal(y as nat),
        None => seq!['?', '?', '?', '?'],
    }
}

/// Formats an optional release year.
pub fn format_year(year: Option<u32>) -> (r: String)
    ensures
        r@ == year_text(year),
{
    let mut s = String::new();
    match year {
        Some(y) => push_decimal(&mut s, y),
        None => {
            push_char(&mut s, '?');
            push_char(&mut s, '?');
            push_char(&mut s, '?');
            push_char(&mut s, '?');
        },
    }
    assert(s@ =~= year_text(year));
    s
}

/// The separator placed between artist names.
pub open spec fn list_separator() -> Seq<char> {
    seq![',', ' ']
}

/// The parts joined with `sep` between each two neighbours.
pub open spec fn joined(parts: Seq<Seq<char>>, sep: Seq<char>) -> Seq<char>
    decreases parts.len(),
{
    if parts.len() == 0 {
        Seq::empty()
    } else if parts.len() == 1 {
        parts[0]
    } else {
        joined(parts.drop_last(), sep) + sep + parts.last()
    }
}

/// The character sequences of a list of strings.
pub open spec fn string_views(v: Seq<String>) -> Seq<Seq<char>> {
    v.map_values(|s: String| s@)
}

/// Joins artist names with ", ", as `artists.join(", ")` does.
pub fn join_artists(artists: &Vec<String>) -> (r: String)
    ensures
        r@ == joined(string_views(artists@), list_separator()),
{
    let mut s = String::new();
    let n = artists.len();
    let ghost parts = string_views(artists@);
    for i in 0..n
        invariant
            n == artists@.len(),
            parts == string_views(artists@),
            s@ == joined(parts.take(i as int), list_separator()),
    {
        if i > 0 {
            push_char(&mut s, ',');
            push_char(&mut s, ' ');
        }
        s.append(artists[i].as_str());
        assert(parts.take(i + 1).drop_last() =~= parts.take(i as int));
    }
    assert(parts.take(n as int) =~= parts);
    s
}


/// Unicode's White_Space property: the characters that `char::is_whitespace`
/// and `str::trim` treat as white space.
pub open spec fn is_white_space(c: char) -> bool {
    let u = c as u32;
    ||| 0x09 <= u <= 0x0D
    ||| u == 0x20
    ||| u == 0x85
    ||| u == 0xA0
    ||| u == 0x1680
    ||| 0x2000 <= u <= 0x200A
    ||| u == 0x2028
    ||| u == 0x2029
    ||| u == 0x202F
    ||| u == 0x205F
    ||| u == 0x3000
}

/// Whether `c` has the White_Space property.
pub fn is_whitespace(c: char) -> (r: bool)
    ensures
        r == is_white_space(c),
{
    let u = c as u32;
    (0x09 <= u && u <= 0x0D) || u == 0x20 || u == 0x85 || u == 0xA0 || u == 0x1680 || (0x2000
        <= u && u <= 0x200A) || u == 0x2028 || u == 0x2029 || u == 0x202F || u == 0x205F || u
        == 0x3000
}

/// A text is blank when trimming it leaves nothing: every character is
/// white space (the empty text is blank).
pub open spec fn is_blank_text(s: Seq<char>) -> bool {
    forall|i: int| 0 <= i < s.len() ==> is_white_space(#[trigger] s[i])
}

/// Whether `s.trim().is_empty()`.
pub fn is_blank(s: &str) -> (r: bool)
    ensures
        r == is_blank_text(s@),
{
    for c in it: s.chars()
        invariant
            it.seq() == s@,
            forall|j: int| 0 <= j < it.index() ==> is_white_space(#[trigger] s@[j]),
    {
        if !is_whitespace(c) {
            return false;
        }
    }
    true
}

/// How one character of a search query is written in a URL query string:
/// `%`, `&`, `#` and `+` are percent-encoded, a space becomes `+`, and
/// every other character stands for itself.
pub open spec fn query_code(c: char) -> Seq<char> {
    if c == '%' {
        seq!['%', '2', '5']
    } else if c == '&' {
        seq!['%', '2', '6']
    } else if c == '#' {
        seq!['%', '2', '3']
    } else if c == '+' {
        seq!['%', '2', 'B']
    } else if c == ' ' {
        seq!['+']
    } else {
        seq![c]
    }
}

/// A search query written for a URL query string, character by character.
pub open spec fn url_encoded(s: Seq<char>) -> Seq<char>
    decreases s.len(),
{
    if s.len() == 0 {
        Seq::empty()
    } else {
        url_encoded(s.drop_last()) + query_code(s.last())
    }
}

/// Appends the code of `c` to `out`.
fn push_query_code(out: &mut String, c: char)
    ensures
        final(out)@ == old(out)@ + query_code(c),
{
    if c == '%' {
        push_char(out, '%');
        push_char(out, '2');
        push_char(out, '5');
    } else if c == '&' {
        push_char(out, '%');
        push_char(out, '2');
        push_char(out, '6');
    } else if c == '#' {
        push_char(out, '%');
        push_char(out, '2');
        push_char(out, '3');
    } else if c == '+' {
        push_char(out, '%');
        push_char(out, '2');
        push_char(out, 'B');
    } else if c == ' ' {
        push_char(out, '+');
    } else {
        push_char(out, c);
    }
    assert(final(out)@ =~= old(out)@ + query_code(c));
}

/// Encodes a search query for use in a URL query string.
/// Converts spaces to `+` and percent-encodes the characters that are
/// structurally significant in a URL (`%`, `&`, `#`, `+`).
pub fn url_encode_query(s: &str) -> (r: String)
    ensures
        r@ == url_encoded(s@),
{
    let mut out = String::new();
    for c in it: s.chars()
        invariant
            it.seq() == s@,
            out@ == url_encoded(s@.take(it.index() as int)),
    {
        let ghost k = it.index();
        push_query_code(&mut out, c);
        assert(s@.take(k + 1).drop_last() =~= s@.take(k));
    }
    assert(s@.take(s@.len() as int) =~= s@);
    out
}

/// Encoding a concatenation encodes each part.
pub proof fn lemma_url_encoded_concat(a: Seq<char>, b: Seq<char>)
    ensures
        url_encoded(a + b) == url_encoded(a) + url_encoded(b),
    decreases b.len(),
{
    if b.len() == 0 {
        assert(a + b =~= a);
    } else {
        lemma_url_encoded_concat(a, b.drop_last());
        assert((a + b).drop_last() =~= a + b.drop_last());
    }
}

/// The code of a character is never empty.
proof fn lemma_url_encoded_empty(s: Seq<char>)
    ensures
        url_encoded(s).len() == 0 <==> s.len() == 0,
        url_encoded(s).len() >= s.len(),
    decreases s.len(),
{
    if s.len() > 0 {
        lemma_url_encoded_empty(s.drop_last());
    }
}

/// Encoding a single character gives its code.
proof fn lemma_url_encoded_single(c: char)
    ensures
        url_encoded(seq![c]) == query_code(c),
{
    let s = seq![c];
    assert(s.drop_last() =~= Seq::<char>::empty());
    assert(url_encoded(s.drop_last()) =~= Seq::<char>::empty());
    assert(s.last() == c);
    assert(url_encoded(s) =~= query_code(c));
}

/// Two codes that begin the same text are codes of the same character.
proof fn lemma_query_code_prefix_free(x: char, y: char, r1: Seq<char>, r2: Seq<char>)
    requires
        query_code(x) + r1 == query_code(y) + r2,
    ensures
        x == y,
        r1 == r2,
{
    let t = query_code(x) + r1;
    assert(t[0] == query_code(x)[0]);
    assert(t[0] == query_code(y)[0]);
    if query_code(x).len() == 3 {
        assert(t[2] == query_code(x)[2]);
        assert(t[2] == query_code(y)[2]);
    }
    assert(x == y);
    assert(r1 =~= t.subrange(query_code(x).len() as int, t.len() as int));
    assert(r2 =~= t.subrange(query_code(y).len() as int, t.len() as int));
}

/// Distinct search queries are written as distinct URL query strings, so
/// the query can always be read back from the URL.
pub proof fn lemma_url_encoded_injective(a: Seq<char>, b: Seq<char>)
    requires
        url_encoded(a) == url_encoded(b),
    ensures
        a == b,
    decreases a.len(),
{
    lemma_url_encoded_empty(a);
    lemma_url_encoded_empty(b);
    if a.len() > 0 {
        let ra = a.drop_first();
        let rb = b.drop_first();
        assert(a =~= seq![a[0]] + ra);
        assert(b =~= seq![b[0]] + rb);
        lemma_url_encoded_concat(seq![a[0]], ra);
        lemma_url_encoded_concat(seq![b[0]], rb);
        lemma_url_encoded_single(a[0]);
        lemma_url_encoded_single(b[0]);
        lemma_query_code_prefix_free(a[0], b[0], url_encoded(ra), url_encoded(rb));
        lemma_url_encoded_injective(ra, rb);
    }
}

/// A character that would end or split a query parameter in a URL.
pub open spec fn is_query_separator(c: char) -> bool {
    c == '&' || c == '#' || c == ' '
}

/// An encoded query holds no `&`, `#` or space, so it stays one query
/// parameter in the URL.
pub proof fn lemma_url_encoded_has_no_separator(s: Seq<char>)
    ensures
        forall|i: int|
            0 <= i < url_encoded(s).len() ==> !is_query_separator(#[trigger] url_encoded(s)[i]),
    decreases s.len(),
{
    if s.len() > 0 {
        lemma_url_encoded_has_no_separator(s.drop_last());
        let p = url_encoded(s.drop_last());
        let c = query_code(s.last());
        assert forall|i: int| 0 <= i < url_encoded(s).len() implies !is_query_separator(
            #[trigger] url_encoded(s)[i],
        ) by {
            if i >= p.len() {
                assert(url_encoded(s)[i] == c[i - p.len()]);
            } else {
                assert(url_encoded(s)[i] == p[i]);
            }
        }
    }
}

/// Whether `c` is an ASCII decimal digit.
pub open spec fn is_digit(c: char) -> bool {
    48 <= c as u32 <= 57
}

/// The number that a string of decimal digits denotes.
pub open spec fn digits_value(s: Seq<char>) -> nat
    decreases s.len(),
{
    if s.len() == 0 {
        0
    } else {
        digits_value(s.drop_last()) * 10 + (s.last() as u32 - 48) as nat
    }
}

/// A decimal numeral for `n`: one or more digits, denoting `n`, with no
/// leading zero unless it is "0" itself.
pub open spec fn is_numeral_of(s: Seq<char>, n: nat) -> bool {
    &&& s.len() >= 1
    &&& forall|i: int| 0 <= i < s.len() ==> is_digit(#[trigger] s[i])
    &&& digits_value(s) == n
    &&& (s[0] == '0' ==> s.len() == 1)
}

/// The decimal representation of a number is its numeral: digits that
/// denote the number, without leading zeros.
pub proof fn lemma_decimal_is_numeral(n: nat)
    ensures
        is_numeral_of(decimal(n), n),
    decreases n,
{
    let s = decimal(n);
    let r = n % 10;
    assert((digit_char(r) as u32) == 48 + r);
    if n >= 10 {
        lemma_decimal_is_numeral(n / 10);
        let d = decimal(n / 10);
        assert(s == d.push(digit_char(r)));
        assert(s.drop_last() =~= d);
        assert(s.last() == digit_char(r));
        assert forall|i: int| 0 <= i < s.len() implies is_digit(#[trigger] s[i]) by {
            if i < d.len() {
                assert(s[i] == d[i]);
            }
        }
        assert(s[0] == d[0]);
        if d[0] == '0' {
            assert(d.drop_last() =~= Seq::<char>::empty());
            assert(d.len() == 1);
            assert(d.last() == d[0]);
            assert(('0' as u32) == 48);
            assert(digits_value(d.drop_last()) == 0);
            assert(digits_value(d) == digits_value(d.drop_last()) * 10 + (d.last() as u32 - 48) as nat);
            assert(digits_value(d) == 0);
        }
        assert(s[0] != '0');
        assert(n == (n / 10) * 10 + r);
        assert(digits_value(s) == digits_value(d) * 10 + r);
    } else {
        assert(s == seq![digit_char(n)]);
        assert(s.drop_last() =~= Seq::<char>::empty());
        assert(digits_value(s.drop_last()) == 0);
        assert(r == n);
        assert(s.last() == digit_char(n));
    }
}

/// A known release year is shown as the numeral of that year, and an
/// unknown one as four question marks.
pub proof fn lemma_year_text(year: Option<u32>)
    ensures
        year matches Some(y) ==> is_numeral_of(year_text(year), y as nat),
        year is None ==> year_text(year) == seq!['?', '?', '?', '?'],
{
    if let Some(y) = year {
        lemma_decimal_is_numeral(y as nat);
    }
}

/// A known track length is shown as minutes, a colon and two digits of
/// seconds: the minutes are a numeral, the seconds are below sixty, and
/// together they make up the whole seconds of the length. An unknown
/// length shows nothing.
pub proof fn lemma_duration_text(ms: Option<u32>)
    ensures
        ms is None ==> duration_text(ms).len() == 0,
        ms matches Some(v) ==> {
            let t = duration_text(ms);
            let minutes = t.subrange(0, t.len() - 3);
            let seconds = t.subrange(t.len() - 2, t.len() as int);
            &&& t.len() >= 4
            &&& t[t.len() - 3] == ':'
            &&& is_numeral_of(minutes, digits_value(minutes))
            &&& seconds.len() == 2
            &&& is_digit(seconds[0]) && is_digit(seconds[1])
            &&& digits_value(seconds) < 60
            &&& digits_value(minutes) * 60 + digits_value(seconds) == v as nat / 1000
        },
{
    if let Some(v) = ms {
        let secs = v as nat / 1000;
        lemma_decimal_is_numeral(secs / 60);
        let m = decimal(secs / 60);
        let t = duration_text(ms);
        let ss = two_digits(secs % 60);
        assert(t =~= m + seq![':'] + ss);
        assert(t.subrange(0, t.len() - 3) =~= m);
        assert(t.subrange(t.len() - 2, t.len() as int) =~= ss);
        let a = (secs % 60) / 10;
        let b = (secs % 60) % 10;
        assert(digit_char(a) as u32 == 48 + a);
        assert(digit_char(b) as u32 == 48 + b);
        assert(ss.drop_last() =~= seq![digit_char(a)]);
        assert(ss.drop_last().drop_last() =~= Seq::<char>::empty());
        assert(ss.len() == 2);
        assert(ss.last() == digit_char(b));
        assert(ss.drop_last().last() == digit_char(a));
        assert(digits_value(ss.drop_last().drop_last()) == 0);
        assert(digits_value(ss.drop_last()) == a);
        assert(digits_value(ss) == a * 10 + b);
        assert(secs % 60 == a * 10 + b);
        assert(secs == (secs / 60) * 60 + secs % 60);
    }
}

/// The total length of `parts`.
pub open spec fn total_len(parts: Seq<Seq<char>>) -> nat
    decreases parts.len(),
{
    if parts.len() == 0 {
        0
    } else {
        total_len(parts.drop_last()) + parts.last().len()
    }
}

/// Where part `i` begins when `parts` are joined with separators of
/// length `sep_len`.
pub open spec fn part_start(parts: Seq<Seq<char>>, sep_len: nat, i: int) -> int {
    total_len(parts.take(i)) + i * sep_len
}

/// Part `i` starts at the same place in `parts` as in any longer list that
/// begins with the same parts.
proof fn lemma_part_start_prefix(parts: Seq<Seq<char>>, sl: nat, i: int)
    requires
        0 <= i < parts.len(),
    ensures
        part_start(parts, sl, i) == part_start(parts.drop_last(), sl, i) || i == parts.len() - 1,
        0 <= part_start(parts, sl, i),
{
    if i < parts.len() - 1 {
        assert(parts.take(i) =~= parts.drop_last().take(i));
    }
    assert(i * sl >= 0) by (nonlinear_arith)
        requires
            i >= 0,
    ;
}

/// The joined length, and where each part ends.
proof fn lemma_joined_bounds(parts: Seq<Seq<char>>, sep: Seq<char>)
    requires
        parts.len() >= 1,
    ensures
        joined(parts, sep).len() == total_len(parts) + (parts.len() - 1) * sep.len(),
        part_start(parts, sep.len(), parts.len() - 1) + parts.last().len() == joined(
            parts,
            sep,
        ).len(),
        forall|i: int|
            0 <= i < parts.len() ==> 0 <= #[trigger] part_start(parts, sep.len(), i)
                && part_start(parts, sep.len(), i) + parts[i].len() <= joined(parts, sep).len(),
    decreases parts.len(),
{
    let n = parts.len();
    let sl = sep.len();
    assert(parts.take(n - 1) =~= parts.drop_last());
    if n == 1 {
        assert(parts.drop_last() =~= Seq::<Seq<char>>::empty());
        assert(total_len(parts.drop_last()) == 0);
        assert(parts.last() == parts[0]);
    } else {
        let p = parts.drop_last();
        lemma_joined_bounds(p, sep);
        assert((n - 1) * sl == (n - 2) * sl + sl) by (nonlinear_arith);
        assert forall|i: int| 0 <= i < n implies 0 <= #[trigger] part_start(parts, sl, i)
            && part_start(parts, sl, i) + parts[i].len() <= joined(parts, sep).len() by {
            lemma_part_start_prefix(parts, sl, i);
            if i < n - 1 {
                assert(p[i] == parts[i]);
                assert(part_start(p, sl, i) + p[i].len() <= joined(p, sep).len());
            }
        }
    }
}

/// Part `i` stands at its place in the joined text.
proof fn lemma_joined_part(parts: Seq<Seq<char>>, sep: Seq<char>, i: int)
    requires
        0 <= i < parts.len(),
    ensures
        joined(parts, sep).subrange(
            part_start(parts, sep.len(), i),
            part_start(parts, sep.len(), i) + parts[i].len(),
        ) == parts[i],
    decreases parts.len(),
{
    let n = parts.len();
    let sl = sep.len();
    let j = joined(parts, sep);
    lemma_joined_bounds(parts, sep);
    if n == 1 {
        assert(parts.drop_last() =~= Seq::<Seq<char>>::empty());
        assert(parts.take(0) =~= Seq::<Seq<char>>::empty());
        assert(j.subrange(0, parts[0].len() as int) =~= parts[0]);
    } else {
        let p = parts.drop_last();
        let jp = joined(p, sep);
        assert(j == jp + sep + parts.last());
        lemma_joined_bounds(p, sep);
        if i < n - 1 {
            lemma_joined_part(p, sep, i);
            lemma_part_start_prefix(parts, sl, i);
            assert(p[i] == parts[i]);
            let a = part_start(p, sl, i);
            assert(0 <= a && a + p[i].len() <= jp.len());
            assert(j.subrange(a, a + parts[i].len()) =~= jp.subrange(a, a + p[i].len()));
        } else {
            assert(j.subrange((jp.len() + sl) as int, j.len() as int) =~= parts.last());
        }
    }
}

/// A separator stands before part `i` when it is not the first.
proof fn lemma_joined_sep(parts: Seq<Seq<char>>, sep: Seq<char>, i: int)
    requires
        0 < i < parts.len(),
    ensures
        joined(parts, sep).subrange(
            part_start(parts, sep.len(), i) - sep.len(),
            part_start(parts, sep.len(), i),
        ) == sep,
    decreases parts.len(),
{
    let n = parts.len();
    let sl = sep.len();
    let j = joined(parts, sep);
    let p = parts.drop_last();
    let jp = joined(p, sep);
    assert(j == jp + sep + parts.last());
    lemma_joined_bounds(parts, sep);
    lemma_joined_bounds(p, sep);
    if i < n - 1 {
        lemma_joined_sep(p, sep, i);
        lemma_part_start_prefix(parts, sl, i);
        let a = part_start(p, sl, i);
        assert(i * sl >= sl) by (nonlinear_arith)
            requires
                i >= 1,
        ;
        assert(a - sl >= 0);
        assert(a + p[i].len() <= jp.len());
        assert(j.subrange(a - sl, a) =~= jp.subrange(a - sl, a));
    } else {
        assert(j.subrange(jp.len() as int, (jp.len() + sl) as int) =~= sep);
    }
}

/// Joining puts every part, in order, with one separator between each two
/// neighbours and nothing else: its length is the parts' total length plus
/// one separator fewer than there are parts, each part stands at its place,
/// and a separator stands before each part but the first.
pub proof fn lemma_joined_parts(parts: Seq<Seq<char>>, sep: Seq<char>)
    requires
        parts.len() >= 1,
    ensures
        joined(parts, sep).len() == total_len(parts) + (parts.len() - 1) * sep.len(),
        forall|i: int|
            0 <= i < parts.len() ==> joined(parts, sep).subrange(
                part_start(parts, sep.len(), i),
                part_start(parts, sep.len(), i) + parts[i].len(),
            ) == #[trigger] parts[i],
        forall|i: int|
            0 < i < parts.len() ==> joined(parts, sep).subrange(
                #[trigger] part_start(parts, sep.len(), i) - sep.len(),
                part_start(parts, sep.len(), i),
            ) == sep,
{
    lemma_joined_bounds(parts, sep);
    assert forall|i: int| 0 <= i < parts.len() implies joined(parts, sep).subrange(
        part_start(parts, sep.len(), i),
        part_start(parts, sep.len(), i) + parts[i].len(),
    ) == #[trigger] parts[i] by {
        lemma_joined_part(parts, sep, i);
    }
    assert forall|i: int| 0 < i < parts.len() implies joined(parts, sep).subrange(
        #[trigger] part_start(parts, sep.len(), i) - sep.len(),
        part_start(parts, sep.len(), i),
    ) == sep by {
        lemma_joined_sep(parts, sep, i);
    }
}

/// The value of a hexadecimal digit (either case).
pub open spec fn hex_value(c: char) -> Option<nat> {
    let u = c as u32;
    if 48 <= u <= 57 {
        Some((u - 48) as nat)
    } else if 65 <= u <= 70 {
        Some((u - 55) as nat)
    } else if 97 <= u <= 102 {
        Some((u - 87) as nat)
    } else {
        None
    }
}

/// Reading a URL query value back: `%XY` with two hexadecimal digits is
/// the character with that code, `+` is a space, and any other character
/// stands for itself.
pub open spec fn url_decoded(t: Seq<char>) -> Seq<char>
    decreases t.len(),
{
    if t.len() == 0 {
        Seq::empty()
    } else if t[0] == '%' && t.len() >= 3 && hex_value(t[1]) is Some && hex_value(t[2]) is Some {
        seq![((hex_value(t[1]).unwrap() * 16 + hex_value(t[2]).unwrap()) as u32) as char]
            + url_decoded(t.subrange(3, t.len() as int))
    } else if t[0] == '+' {
        seq![' '] + url_decoded(t.drop_first())
    } else {
        seq![t[0]] + url_decoded(t.drop_first())
    }
}

/// Decoding a character's code followed by more text gives the character
/// followed by the decoding of that text.
proof fn lemma_decode_code(c: char, rest: Seq<char>)
    ensures
        url_decoded(query_code(c) + rest) == seq![c] + url_decoded(rest),
{
    let t = query_code(c) + rest;
    if query_code(c).len() == 3 {
        assert(t.subrange(3, t.len() as int) =~= rest);
    } else {
        assert(t.drop_first() =~= rest);
    }
}

/// Decoding undoes the encoding: reading the encoded query back as a URL
/// query value gives the query itself.
pub proof fn lemma_url_decoded_encoded(s: Seq<char>)
    ensures
        url_decoded(url_encoded(s)) == s,
    decreases s.len(),
{
    if s.len() > 0 {
        let rest = s.drop_first();
        assert(s =~= seq![s[0]] + rest);
        lemma_url_encoded_concat(seq![s[0]], rest);
        lemma_url_encoded_single(s[0]);
        lemma_decode_code(s[0], url_encoded(rest));
        lemma_url_decoded_encoded(rest);
    }
}

/// Whether `c` is written differently in a URL query: `%`, `&`, `#`, `+`
/// and space.
pub open spec fn is_escaped(c: char) -> bool {
    c == '%' || c == '&' || c == '#' || c == '+' || c == ' '
}

/// A query with none of `%`, `&`, `#`, `+` or space is written as it is.
pub proof fn lemma_plain_query_unchanged(s: Seq<char>)
    requires
        forall|i: int| 0 <= i < s.len() ==> !is_escaped(#[trigger] s[i]),
    ensures
        url_encoded(s) == s,
    decreases s.len(),
{
    if s.len() > 0 {
        let p = s.drop_last();
        assert forall|i: int| 0 <= i < p.len() implies !is_escaped(#[trigger] p[i]) by {
            assert(p[i] == s[i]);
        }
        lemma_plain_query_unchanged(p);
        assert(!is_escaped(s[s.len() - 1]));
        assert(s =~= p.push(s.last()));
    }
}

} // verus!
