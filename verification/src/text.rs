//! Character-level text helpers with their meaning spelled out over `Seq<char>`:
//! splitting, trimming, prefixes and suffixes, ASCII case folding and decimal
//! numbers in the form `u32`'s `to_string` and `parse` use.
use vstd::prelude::*;

verus! {

/// Unicode `White_Space`, the set `char::is_whitespace` and `str::trim` use.
pub open spec fn is_space(c: char) -> bool {
    ||| ('\u{9}' <= c && c <= '\u{d}')
    ||| c == ' '
    ||| c == '\u{85}'
    ||| c == '\u{a0}'
    ||| c == '\u{1680}'
    ||| ('\u{2000}' <= c && c <= '\u{200a}')
    ||| c == '\u{2028}'
    ||| c == '\u{2029}'
    ||| c == '\u{202f}'
    ||| c == '\u{205f}'
    ||| c == '\u{3000}'
}

/// `s` without its leading white space.
pub open spec fn trim_start(s: Seq<char>) -> Seq<char>
    decreases s.len(),
{
    if s.len() > 0 && is_space(s[0]) {
        trim_start(s.drop_first())
    } else {
        s
    }
}

/// `s` without its trailing white space.
pub open spec fn trim_end(s: Seq<char>) -> Seq<char>
    decreases s.len(),
{
    if s.len() > 0 && is_space(s.last()) {
        trim_end(s.drop_last())
    } else {
        s
    }
}

/// `s` without white space at either end (what `str::trim` returns).
pub open spec fn trim(s: Seq<char>) -> Seq<char> {
    trim_end(trim_start(s))
}

/// The first position of `c` in `s` at or after `from`, if any.
pub open spec fn find_from(s: Seq<char>, c: char, from: int) -> Option<int>
    decreases s.len() - from,
{
    if from < 0 || from >= s.len() {
        None
    } else if s[from] == c {
        Some(from)
    } else {
        find_from(s, c, from + 1)
    }
}

/// The pieces of `s` between occurrences of `sep`, as `str::split` yields
/// them (an empty `s` gives one empty piece).
pub open spec fn split(s: Seq<char>, sep: char) -> Seq<Seq<char>>
    decreases s.len(),
{
    match find_from(s, sep, 0) {
        None => seq![s],
        Some(i) => if 0 <= i < s.len() {
            seq![s.take(i)] + split(s.skip(i + 1), sep)
        } else {
            seq![s]
        },
    }
}

/// `s` split at the first `sep`, as `str::split_once` does.
pub open spec fn split_once(s: Seq<char>, sep: char) -> Option<(Seq<char>, Seq<char>)> {
    match find_from(s, sep, 0) {
        None => None,
        Some(i) => Some((s.take(i), s.skip(i + 1))),
    }
}

/// The pieces joined back together with `sep` between them (`[T]::join`).
pub open spec fn join(parts: Seq<Seq<char>>, sep: Seq<char>) -> Seq<char>
    decreases parts.len(),
{
    if parts.len() == 0 {
        Seq::empty()
    } else if parts.len() == 1 {
        parts[0]
    } else {
        parts[0] + sep + join(parts.drop_first(), sep)
    }
}

/// Appending one more piece adds the separator and that piece.
pub proof fn lemma_join_push(parts: Seq<Seq<char>>, sep: Seq<char>, x: Seq<char>)
    requires
        parts.len() >= 1,
    ensures
        join(parts.push(x), sep) == join(parts, sep) + sep + x,
    decreases parts.len(),
{
    let p2 = parts.push(x);
    assert(p2[0] == parts[0]);
    if parts.len() == 1 {
        assert(p2.drop_first() == seq![x]);
        assert(join(seq![x], sep) == x);
        assert(join(p2, sep) == parts[0] + sep + x);
    } else {
        lemma_join_push(parts.drop_first(), sep, x);
        assert(p2.drop_first() == parts.drop_first().push(x));
        assert(join(p2, sep) == parts[0] + sep + (join(parts.drop_first(), sep) + sep + x));
        assert(join(parts, sep) == parts[0] + sep + join(parts.drop_first(), sep));
        assert(parts[0] + sep + (join(parts.drop_first(), sep) + sep + x) =~= parts[0] + sep + join(
            parts.drop_first(),
            sep,
        ) + sep + x);
    }
}

/// Splitting at a separator that no piece contains gives the pieces back.
pub proof fn lemma_split_join(parts: Seq<Seq<char>>, sep: char)
    requires
        parts.len() >= 1,
        forall|i: int, j: int| 0 <= i < parts.len() && 0 <= j < parts[i].len() ==> #[trigger] parts[i][j] != sep,
    ensures
        split(join(parts, seq![sep]), sep) == parts,
    decreases parts.len(),
{
    let first = parts[0];
    lemma_no_sep_find(first, sep);
    if parts.len() == 1 {
        assert(split(first, sep) == seq![first]);
    } else {
        let rest = join(parts.drop_first(), seq![sep]);
        let whole = first + seq![sep] + rest;
        assert forall|j: int| 0 <= j < first.len() implies whole[j] != sep by {
            assert(whole[j] == first[j]);
            assert(parts[0][j] != sep);
        }
        lemma_find_is(whole, sep, 0, first.len() as int);
        assert(whole.take(first.len() as int) == first);
        assert(whole.skip(first.len() as int + 1) == rest);
        lemma_split_join(parts.drop_first(), sep);
        assert(seq![first] + parts.drop_first() == parts);
    }
}

proof fn lemma_no_sep_find(s: Seq<char>, sep: char)
    requires
        forall|j: int| 0 <= j < s.len() ==> s[j] != sep,
    ensures
        find_from(s, sep, 0) is None,
        split(s, sep) == seq![s],
{
    lemma_no_sep_find_from(s, sep, 0);
}

proof fn lemma_no_sep_find_from(s: Seq<char>, sep: char, from: int)
    requires
        0 <= from,
        forall|j: int| from <= j < s.len() ==> s[j] != sep,
    ensures
        find_from(s, sep, from) is None,
    decreases s.len() - from,
{
    if from < s.len() {
        lemma_no_sep_find_from(s, sep, from + 1);
    }
}

proof fn lemma_find_is(s: Seq<char>, c: char, from: int, i: int)
    requires
        0 <= from <= i < s.len(),
        s[i] == c,
        forall|j: int| from <= j < i ==> s[j] != c,
    ensures
        find_from(s, c, from) == Some(i),
    decreases i - from,
{
    if from < i {
        lemma_find_is(s, c, from + 1, i);
    }
}

/// The views of a list of char vectors.
pub open spec fn views(parts: Seq<Vec<char>>) -> Seq<Seq<char>> {
    parts.map_values(|v: Vec<char>| v@)
}

/// `parts` joined with `sep` between them.
pub fn join_chars(parts: &Vec<Vec<char>>, sep: &Vec<char>) -> (r: Vec<char>)
    ensures
        r@ == join(views(parts@), sep@),
{
    let mut out: Vec<char> = Vec::new();
    let mut i: usize = 0;
    while i < parts.len()
        invariant
            i <= parts@.len(),
            out@ == join(views(parts@).take(i as int), sep@),
        decreases parts.len() - i,
    {
        let ghost before = out@;
        let ghost taken = views(parts@).take(i as int);
        assert(views(parts@).take(i + 1) == taken.push(parts@[i as int]@));
        if i > 0 {
            push_all(&mut out, sep);
            push_all(&mut out, &parts[i]);
            proof {
                lemma_join_push(taken, sep@, parts@[i as int]@);
            }
        } else {
            push_all(&mut out, &parts[i]);
            assert(taken.push(parts@[i as int]@) == seq![parts@[i as int]@]);
        }
        i = i + 1;
    }
    assert(views(parts@).take(parts@.len() as int) == views(parts@));
    out
}

/// ASCII upper-case letters folded to lower case; every other char unchanged.
pub open spec fn lower_char(c: char) -> char {
    if 'A' <= c && c <= 'Z' {
        ((c as u32) + 32) as char
    } else {
        c
    }
}

/// `str::to_ascii_lowercase`.
pub open spec fn lower(s: Seq<char>) -> Seq<char> {
    s.map_values(|c: char| lower_char(c))
}

pub open spec fn is_digit(c: char) -> bool {
    '0' <= c && c <= '9'
}

pub open spec fn digit_value(c: char) -> nat {
    if c == '1' {
        1
    } else if c == '2' {
        2
    } else if c == '3' {
        3
    } else if c == '4' {
        4
    } else if c == '5' {
        5
    } else if c == '6' {
        6
    } else if c == '7' {
        7
    } else if c == '8' {
        8
    } else if c == '9' {
        9
    } else {
        0
    }
}

/// [`digit_value`], computed.
pub fn value_of_digit(c: char) -> (d: u32)
    ensures
        d == digit_value(c),
{
    if c == '1' {
        1
    } else if c == '2' {
        2
    } else if c == '3' {
        3
    } else if c == '4' {
        4
    } else if c == '5' {
        5
    } else if c == '6' {
        6
    } else if c == '7' {
        7
    } else if c == '8' {
        8
    } else if c == '9' {
        9
    } else {
        0
    }
}

pub open spec fn digit_char(d: nat) -> char {
    if d == 0 {
        '0'
    } else if d == 1 {
        '1'
    } else if d == 2 {
        '2'
    } else if d == 3 {
        '3'
    } else if d == 4 {
        '4'
    } else if d == 5 {
        '5'
    } else if d == 6 {
        '6'
    } else if d == 7 {
        '7'
    } else if d == 8 {
        '8'
    } else {
        '9'
    }
}

pub open spec fn all_digits(s: Seq<char>) -> bool {
    forall|i: int| 0 <= i < s.len() ==> #[trigger] is_digit(s[i])
}

/// The number a string of decimal digits spells.
pub open spec fn digits_value(s: Seq<char>) -> nat
    decreases s.len(),
{
    if s.len() == 0 {
        0
    } else {
        digits_value(s.drop_last()) * 10 + digit_value(s.last())
    }
}

/// `n` in decimal, without leading zeros (what `to_string` writes).
pub open spec fn decimal(n: nat) -> Seq<char>
    decreases n,
{
    if n < 10 {
        seq![digit_char(n)]
    } else {
        decimal(n / 10).push(digit_char(n % 10))
    }
}

/// What `str::parse::<u32>` accepts: an optional `+`, then one or more
/// decimal digits whose value fits in a `u32`.
pub open spec fn parse_u32(s: Seq<char>) -> Option<u32> {
    let digits = if s.len() > 0 && s[0] == '+' { s.drop_first() } else { s };
    if digits.len() > 0 && all_digits(digits) && digits_value(digits) <= u32::MAX {
        Some(digits_value(digits) as u32)
    } else {
        None
    }
}

/// `p` is a prefix of `s`.
pub open spec fn has_prefix(s: Seq<char>, p: Seq<char>) -> bool {
    p.len() <= s.len() && s.take(p.len() as int) == p
}

/// `p` is a suffix of `s`.
pub open spec fn has_suffix(s: Seq<char>, p: Seq<char>) -> bool {
    p.len() <= s.len() && s.skip(s.len() - p.len()) == p
}

/// `p` occurs somewhere in `s` (what `str::contains` with a string pattern asks).
pub open spec fn has_infix(s: Seq<char>, p: Seq<char>) -> bool {
    exists|i: int| 0 <= i <= s.len() - p.len() && #[trigger] s.subrange(i, i + p.len()) == p
}

/// `String::push`: the string gains `c` at its end, and nothing else changes.
#[verifier::external_body]
pub(crate) fn push_char(s: &mut String, c: char)
    ensures
        final(s)@ == old(s)@.push(c),
{
    s.push(c);
}

/// `String::from_utf8`: a string exactly when the bytes are valid UTF-8,
/// and then the string those bytes encode.
#[verifier::external_body]
pub(crate) fn string_from_utf8(bytes: Vec<u8>) -> (r: Option<String>)
    ensures
        r is Some <==> vstd::utf8::valid_utf8(bytes@),
        r matches Some(s) ==> s@ == vstd::utf8::decode_utf8(bytes@),
{
    String::from_utf8(bytes).ok()
}

/// The chars of a string slice.
pub fn chars_of(s: &str) -> (r: Vec<char>)
    ensures
        r@ == s@,
{
    let n = s.unicode_len();
    let mut out: Vec<char> = Vec::new();
    let mut i: usize = 0;
    while i < n
        invariant
            n == s@.len(),
            i <= n,
            out@ == s@.take(i as int),
        decreases n - i,
    {
        out.push(s.get_char(i));
        i = i + 1;
        assert(out@ == s@.take(i as int));
    }
    assert(s@.take(n as int) == s@);
    out
}

/// A string holding the chars `cs`.
pub fn string_of(cs: &Vec<char>) -> (r: String)
    ensures
        r@ == cs@,
{
    let mut out = String::new();
    let mut i: usize = 0;
    while i < cs.len()
        invariant
            i <= cs@.len(),
            out@ == cs@.take(i as int),
        decreases cs.len() - i,
    {
        push_char(&mut out, cs[i]);
        i = i + 1;
        assert(out@ == cs@.take(i as int));
    }
    assert(cs@.take(cs@.len() as int) == cs@);
    out
}

/// Appends all of `tail` to `out`.
pub fn push_all(out: &mut Vec<char>, tail: &Vec<char>)
    ensures
        final(out)@ == old(out)@ + tail@,
{
    let mut i: usize = 0;
    while i < tail.len()
        invariant
            i <= tail@.len(),
            out@ == old(out)@ + tail@.take(i as int),
        decreases tail.len() - i,
    {
        out.push(tail[i]);
        i = i + 1;
        assert(out@ == old(out)@ + tail@.take(i as int));
    }
    assert(tail@.take(tail@.len() as int) == tail@);
}

/// Whether two char sequences are equal.
pub fn same_chars(a: &Vec<char>, b: &Vec<char>) -> (r: bool)
    ensures
        r == (a@ == b@),
{
    if a.len() != b.len() {
        return false;
    }
    let mut i: usize = 0;
    while i < a.len()
        invariant
            a@.len() == b@.len(),
            i <= a@.len(),
            forall|j: int| 0 <= j < i ==> a@[j] == b@[j],
        decreases a.len() - i,
    {
        if a[i] != b[i] {
            return false;
        }
        i = i + 1;
    }
    assert(a@ =~= b@);
    true
}

/// The chars of `s` in `[from, to)`.
pub fn slice_chars(s: &Vec<char>, from: usize, to: usize) -> (r: Vec<char>)
    requires
        from <= to <= s@.len(),
    ensures
        r@ == s@.subrange(from as int, to as int),
{
    let mut out: Vec<char> = Vec::new();
    let mut i: usize = from;
    while i < to
        invariant
            from <= i <= to,
            to <= s@.len(),
            out@ == s@.subrange(from as int, i as int),
        decreases to - i,
    {
        out.push(s[i]);
        i = i + 1;
        assert(out@ == s@.subrange(from as int, i as int));
    }
    out
}

proof fn lemma_trim_start_suffix(s: Seq<char>)
    ensures
        exists|k: int| 0 <= k <= s.len() && trim_start(s) == s.skip(k) && (forall|j: int| 0 <= j < k ==> #[trigger] is_space(s[j])) && (k < s.len() ==> !is_space(s[k])),
    decreases s.len(),
{
    if s.len() > 0 && is_space(s[0]) {
        lemma_trim_start_suffix(s.drop_first());
        let k = choose|k: int| 0 <= k <= s.drop_first().len() && trim_start(s.drop_first()) == s.drop_first().skip(k) && (forall|j: int| 0 <= j < k ==> #[trigger] is_space(s.drop_first()[j])) && (k < s.drop_first().len() ==> !is_space(s.drop_first()[k]));
        assert(s.drop_first().skip(k) == s.skip(k + 1));
        assert forall|j: int| 0 <= j < k + 1 implies #[trigger] is_space(s[j]) by {
            if j > 0 {
                assert(s[j] == s.drop_first()[j - 1]);
            }
        }
    } else {
        assert(s.skip(0) == s);
    }
}

proof fn lemma_trim_end_prefix(s: Seq<char>)
    ensures
        exists|k: int| 0 <= k <= s.len() && trim_end(s) == s.take(k) && (forall|j: int| k <= j < s.len() ==> #[trigger] is_space(s[j])) && (k > 0 ==> !is_space(s[k - 1])),
    decreases s.len(),
{
    if s.len() > 0 && is_space(s.last()) {
        lemma_trim_end_prefix(s.drop_last());
        let k = choose|k: int| 0 <= k <= s.drop_last().len() && trim_end(s.drop_last()) == s.drop_last().take(k) && (forall|j: int| k <= j < s.drop_last().len() ==> #[trigger] is_space(s.drop_last()[j])) && (k > 0 ==> !is_space(s.drop_last()[k - 1]));
        assert(s.drop_last().take(k) == s.take(k));
        assert forall|j: int| k <= j < s.len() implies #[trigger] is_space(s[j]) by {
            if j < s.len() - 1 {
                assert(s[j] == s.drop_last()[j]);
            }
        }
    } else {
        assert(s.take(s.len() as int) == s);
    }
}

/// `s` with white space removed from both ends.
pub fn trim_chars(s: &Vec<char>) -> (r: Vec<char>)
    ensures
        r@ == trim(s@),
{
    let n = s.len();
    let mut a: usize = 0;
    while a < n && is_space_exec(s[a])
        invariant
            n == s@.len(),
            a <= n,
            forall|j: int| 0 <= j < a ==> #[trigger] is_space(s@[j]),
        decreases n - a,
    {
        a = a + 1;
    }
    let mut b: usize = n;
    while b > a && is_space_exec(s[b - 1])
        invariant
            n == s@.len(),
            a <= b <= n,
            forall|j: int| b <= j < n ==> #[trigger] is_space(s@[j]),
        decreases b,
    {
        b = b - 1;
    }
    proof {
        lemma_trim_start_suffix(s@);
        let k = choose|k: int| 0 <= k <= s@.len() && trim_start(s@) == s@.skip(k) && (forall|j: int| 0 <= j < k ==> #[trigger] is_space(s@[j])) && (k < s@.len() ==> !is_space(s@[k]));
        assert(k == a) by {
            if k < a {
                assert(is_space(s@[k]));
            } else if k > a {
                assert(is_space(s@[a as int]));
            }
        }
        let t = s@.skip(a as int);
        lemma_trim_end_prefix(t);
        let m = choose|m: int| 0 <= m <= t.len() && trim_end(t) == t.take(m) && (forall|j: int| m <= j < t.len() ==> #[trigger] is_space(t[j])) && (m > 0 ==> !is_space(t[m - 1]));
        assert(m == b - a) by {
            if m < b - a {
                assert(t[b - a - 1] == s@[b - 1]);
                assert(is_space(t[b - a - 1]));
            } else if m > b - a {
                assert(t[m - 1] == s@[a + m - 1]);
                assert(is_space(s@[a + m - 1]));
            }
        }
        assert(t.take(m) == s@.subrange(a as int, b as int));
    }
    slice_chars(s, a, b)
}

/// [`is_space`], computed.
pub fn is_space_exec(c: char) -> (r: bool)
    ensures
        r == is_space(c),
{
    ('\u{9}' <= c && c <= '\u{d}') || c == ' ' || c == '\u{85}' || c == '\u{a0}' || c == '\u{1680}'
        || ('\u{2000}' <= c && c <= '\u{200a}') || c == '\u{2028}' || c == '\u{2029}' || c == '\u{202f}'
        || c == '\u{205f}' || c == '\u{3000}'
}

/// The first position of `c` in `s` at or after `from`.
pub fn find_char(s: &Vec<char>, c: char, from: usize) -> (r: Option<usize>)
    ensures
        match r {
            Some(i) => find_from(s@, c, from as int) == Some(i as int),
            None => find_from(s@, c, from as int) is None,
        },
    decreases s@.len() - from,
{
    if from >= s.len() {
        None
    } else if s[from] == c {
        Some(from)
    } else {
        find_char(s, c, from + 1)
    }
}

proof fn lemma_find_from_range(s: Seq<char>, c: char, from: int)
    requires
        0 <= from,
    ensures
        find_from(s, c, from) matches Some(i) ==> from <= i < s.len() && s[i] == c,
        find_from(s, c, from) is None ==> forall|j: int| from <= j < s.len() && 0 <= j ==> s[j] != c,
    decreases s.len() - from,
{
    if from < 0 || from >= s.len() {
    } else if s[from] == c {
    } else {
        lemma_find_from_range(s, c, from + 1);
    }
}

/// `str::split` by a single char.
pub fn split_chars(s: &Vec<char>, sep: char) -> (r: Vec<Vec<char>>)
    ensures
        r@.len() == split(s@, sep).len(),
        forall|i: int| 0 <= i < r@.len() ==> #[trigger] r@[i]@ == split(s@, sep)[i],
{
    let mut out: Vec<Vec<char>> = Vec::new();
    let mut start: usize = 0;
    let n = s.len();
    assert(s@.skip(0) == s@);
    loop
        invariant
            n == s@.len(),
            start <= s@.len(),
            out@.len() + split(s@.skip(start as int), sep).len() == split(s@, sep).len(),
            forall|i: int| 0 <= i < out@.len() ==> #[trigger] out@[i]@ == split(s@, sep)[i],
            forall|i: int|
                0 <= i < split(s@.skip(start as int), sep).len() ==> #[trigger] split(s@.skip(start as int), sep)[i]
                    == split(s@, sep)[out@.len() + i],
        decreases s@.len() - start,
    {
        let ghost rest = s@.skip(start as int);
        proof {
            lemma_find_from_range(rest, sep, 0);
        }
        match find_char(s, sep, start) {
            None => {
                proof {
                    lemma_find_from_range(s@, sep, start as int);
                    assert(find_from(rest, sep, 0) is None) by {
                        if let Some(i) = find_from(rest, sep, 0) {
                            assert(rest[i] == s@[start + i]);
                        }
                    }
                    assert(split(rest, sep) == seq![rest]);
                }
                let piece = slice_chars(s, start, s.len());
                assert(piece@ == rest);
                assert(split(rest, sep)[0] == rest);
                let ghost before = out@;
                out.push(piece);
                proof {
                    assert forall|i: int| 0 <= i < out@.len() implies #[trigger] out@[i]@ == split(s@, sep)[i] by {
                        if i < before.len() {
                            assert(out@[i] == before[i]);
                        }
                    }
                }
                return out;
            },
            Some(k) => {
                proof {
                    lemma_find_from_range(s@, sep, start as int);
                    assert(k < s@.len());
                    let i = (k - start) as int;
                    assert(rest[i] == sep);
                    assert forall|j: int| 0 <= j < i implies rest[j] != sep by {
                        assert(rest[j] == s@[start + j]);
                        if rest[j] == sep {
                            lemma_find_first(s@, sep, start as int, start + j);
                        }
                    }
                    lemma_find_from_is(rest, sep, 0, i);
                    assert(rest.take(i) == s@.subrange(start as int, k as int));
                    assert(rest.skip(i + 1) == s@.skip(k + 1));
                    assert(split(rest, sep) == seq![rest.take(i)] + split(rest.skip(i + 1), sep));
                }
                let piece = slice_chars(s, start, k);
                let ghost before = out@;
                out.push(piece);
                proof {
                    assert forall|i: int| 0 <= i < out@.len() implies #[trigger] out@[i]@ == split(s@, sep)[i] by {
                        if i < before.len() {
                            assert(out@[i] == before[i]);
                        } else {
                            assert(split(rest, sep)[0] == rest.take((k - start) as int));
                        }
                    }
                    let nr = s@.skip(k + 1);
                    assert forall|i: int| 0 <= i < split(nr, sep).len() implies #[trigger] split(nr, sep)[i]
                        == split(s@, sep)[out@.len() + i] by {
                        assert(split(rest, sep)[i + 1] == split(nr, sep)[i]);
                    }
                }
                start = k + 1;
            },
        }
    }
}

proof fn lemma_find_first(s: Seq<char>, c: char, from: int, j: int)
    requires
        0 <= from <= j < s.len(),
        s[j] == c,
    ensures
        find_from(s, c, from) matches Some(i) && i <= j,
    decreases j - from,
{
    if s[from] != c {
        lemma_find_first(s, c, from + 1, j);
    }
}

proof fn lemma_find_from_is(s: Seq<char>, c: char, from: int, i: int)
    requires
        0 <= from <= i < s.len(),
        s[i] == c,
        forall|j: int| from <= j < i ==> s[j] != c,
    ensures
        find_from(s, c, from) == Some(i),
    decreases i - from,
{
    if from < i {
        lemma_find_from_is(s, c, from + 1, i);
    }
}

/// `n` written in decimal.
pub fn decimal_chars(n: u32) -> (r: Vec<char>)
    ensures
        r@ == decimal(n as nat),
    decreases n,
{
    let d = n % 10;
    let c = char_of_digit(d);
    if n < 10 {
        let mut v: Vec<char> = Vec::new();
        v.push(c);
        assert(v@ == seq![digit_char(n as nat)]);
        v
    } else {
        let mut v = decimal_chars(n / 10);
        v.push(c);
        v
    }
}

/// `n` written in decimal.
pub fn decimal_usize(n: usize) -> (r: Vec<char>)
    ensures
        r@ == decimal(n as nat),
    decreases n,
{
    let d = (n % 10) as u32;
    let c = char_of_digit(d);
    if n < 10 {
        let mut v: Vec<char> = Vec::new();
        v.push(c);
        assert(v@ == seq![digit_char(n as nat)]);
        v
    } else {
        let mut v = decimal_usize(n / 10);
        v.push(c);
        v
    }
}

/// Three pieces of text one after the other.
pub fn concat3(a: &str, b: &str, c: &str) -> (r: String)
    ensures
        r@ == a@ + b@ + c@,
{
    let mut out = chars_of(a);
    push_all(&mut out, &chars_of(b));
    push_all(&mut out, &chars_of(c));
    string_of(&out)
}

/// The char for decimal digit `d`.
pub fn char_of_digit(d: u32) -> (c: char)
    requires
        d < 10,
    ensures
        c == digit_char(d as nat),
        is_digit(c),
        digit_value(c) == d,
{
    let c = if d == 0 { '0' } else if d == 1 { '1' } else if d == 2 { '2' } else if d == 3 { '3' } else if d
        == 4 { '4' } else if d == 5 { '5' } else if d == 6 { '6' } else if d == 7 { '7' } else if d == 8 {
        '8'
    } else {
        '9'
    };
    c
}

/// Digits parsed as `str::parse::<u32>` does.
pub fn parse_u32_chars(s: &Vec<char>) -> (r: Option<u32>)
    ensures
        r == parse_u32(s@),
{
    let start: usize = if s.len() > 0 && s[0] == '+' { 1 } else { 0 };
    let ghost digits = if s@.len() > 0 && s@[0] == '+' { s@.drop_first() } else { s@ };
    assert(digits == s@.skip(start as int));
    if start >= s.len() {
        return None;
    }
    let mut value: u64 = 0;
    let mut i: usize = start;
    let n = s.len();
    while i < s.len()
        invariant
            n == s@.len(),
            start <= i <= s@.len(),
            digits == s@.skip(start as int),
            digits == (if s@.len() > 0 && s@[0] == '+' { s@.drop_first() } else { s@ }),
            all_digits(s@.subrange(start as int, i as int)),
            value == digits_value(s@.subrange(start as int, i as int)),
            value <= u32::MAX,
        decreases s.len() - i,
    {
        let c = s[i];
        if !('0' <= c && c <= '9') {
            proof {
                assert(digits[i - start] == s@[i as int]);
                assert(!is_digit(digits[i - start]));
                assert(!all_digits(digits));
                assert(parse_u32(s@) is None);
            }
            return None;
        }
        let d = value_of_digit(c) as u64;
        let ghost prefix = s@.subrange(start as int, i as int);
        let ghost next = s@.subrange(start as int, i + 1);
        assert(next.drop_last() == prefix);
        assert(next.last() == c);
        let v2 = value * 10 + d;
        assert(digits_value(next) == value * 10 + d);
        if v2 > 0xffff_ffff {
            proof {
                lemma_digits_monotone(digits, (i + 1 - start) as int);
                assert(digits.take((i + 1 - start) as int) == next);
                assert(parse_u32(s@) is None);
            }
            return None;
        }
        value = v2;
        i = i + 1;
        assert(all_digits(s@.subrange(start as int, i as int))) by {
            assert forall|j: int| 0 <= j < next.len() implies #[trigger] is_digit(next[j]) by {
                if j < prefix.len() {
                    assert(next[j] == prefix[j]);
                }
            }
        }
    }
    assert(s@.subrange(start as int, s@.len() as int) == digits);
    Some(value as u32)
}

proof fn lemma_digits_monotone(s: Seq<char>, k: int)
    requires
        0 <= k <= s.len(),
    ensures
        digits_value(s.take(k)) <= digits_value(s) || !all_digits(s),
        all_digits(s) ==> digits_value(s.take(k)) <= digits_value(s),
    decreases s.len() - k,
{
    if k < s.len() {
        lemma_digits_monotone(s.drop_last(), if k <= s.len() - 1 { k } else { s.len() - 1 });
        if k <= s.len() - 1 {
            assert(s.drop_last().take(k) == s.take(k));
        }
        if all_digits(s) {
            assert(all_digits(s.drop_last())) by {
                assert forall|j: int| 0 <= j < s.drop_last().len() implies #[trigger] is_digit(s.drop_last()[j]) by {
                    assert(s.drop_last()[j] == s[j]);
                }
            }
        }
    } else {
        assert(s.take(k) == s);
    }
}

/// Decimal digits read back give the number they were written from.
pub proof fn lemma_parse_decimal(n: u32)
    ensures
        parse_u32(decimal(n as nat)) == Some(n),
{
    lemma_decimal_digits(n as nat);
}

pub proof fn lemma_decimal_digits(n: nat)
    ensures
        decimal(n).len() > 0,
        all_digits(decimal(n)),
        digits_value(decimal(n)) == n,
        decimal(n)[0] != '+',
    decreases n,
{
    assert(digits_value(Seq::<char>::empty()) == 0);
    if n < 10 {
        assert(decimal(n) == seq![digit_char(n)]);
        assert(seq![digit_char(n)].drop_last() == Seq::<char>::empty());
        assert(digit_value(digit_char(n)) == n);
    } else {
        lemma_decimal_digits(n / 10);
        let d = decimal(n / 10);
        let e = d.push(digit_char(n % 10));
        assert(e.drop_last() == d);
        assert(all_digits(e)) by {
            assert forall|j: int| 0 <= j < e.len() implies #[trigger] is_digit(e[j]) by {
                if j < d.len() {
                    assert(e[j] == d[j]);
                }
            }
        }
        assert(e[0] == d[0]);
    }
}

/// ASCII lower case of every char.
pub fn lower_chars(s: &Vec<char>) -> (r: Vec<char>)
    ensures
        r@ == lower(s@),
{
    let mut out: Vec<char> = Vec::new();
    let mut i: usize = 0;
    while i < s.len()
        invariant
            i <= s@.len(),
            out@ == lower(s@.take(i as int)),
        decreases s.len() - i,
    {
        let c = s[i];
        let l = if 'A' <= c && c <= 'Z' {
            let u: u32 = c as u32 + 32;
            assert(u == (c as u32) + 32);
            char_from_ascii(u)
        } else {
            c
        };
        out.push(l);
        i = i + 1;
        assert(out@ == lower(s@.take(i as int)));
    }
    assert(s@.take(s@.len() as int) == s@);
    out
}

/// The char with ASCII code `u`.
fn char_from_ascii(u: u32) -> (c: char)
    requires
        u < 128,
    ensures
        c == u as char,
{
    let b: u8 = u as u8;
    b as char
}

/// Whether `p` is a prefix of `s`.
pub fn starts_with(s: &Vec<char>, p: &Vec<char>) -> (r: bool)
    ensures
        r == has_prefix(s@, p@),
{
    if p.len() > s.len() {
        return false;
    }
    let head = slice_chars(s, 0, p.len());
    assert(head@ == s@.take(p@.len() as int));
    same_chars(&head, p)
}

/// Whether `p` is a suffix of `s`.
pub fn ends_with(s: &Vec<char>, p: &Vec<char>) -> (r: bool)
    ensures
        r == has_suffix(s@, p@),
{
    if p.len() > s.len() {
        return false;
    }
    let tail = slice_chars(s, s.len() - p.len(), s.len());
    assert(tail@ == s@.skip(s@.len() - p@.len()));
    same_chars(&tail, p)
}

/// Whether `p` occurs in `s`.
pub fn contains_chars(s: &Vec<char>, p: &Vec<char>) -> (r: bool)
    ensures
        r == has_infix(s@, p@),
{
    if p.len() > s.len() {
        return false;
    }
    if p.len() == 0 {
        assert(s@.subrange(0, 0 + p@.len() as int) == p@);
        return true;
    }
    let last = s.len() - p.len();
    let sn = s.len();
    let mut i: usize = 0;
    while i <= last
        invariant
            sn == s@.len(),
            last == s@.len() - p@.len(),
            p@.len() >= 1,
            s@.len() >= p@.len(),
            i <= last + 1,
            forall|j: int| 0 <= j < i ==> #[trigger] s@.subrange(j, j + p@.len()) != p@,
        decreases last + 1 - i,
    {
        assert(i + p@.len() <= s@.len());
        let piece = slice_chars(s, i, i + p.len());
        if same_chars(&piece, p) {
            return true;
        }
        i = i + 1;
    }
    false
}

/// Trimming leaves a sequence alone when neither end is white space.
pub proof fn lemma_trim_noop(s: Seq<char>)
    requires
        s.len() > 0 ==> !is_space(s[0]) && !is_space(s.last()),
    ensures
        trim(s) == s,
{
    assert(trim_start(s) == s);
}

/// A sequence trimming leaves alone has no white space at either end.
pub proof fn lemma_trim_fixed_ends(s: Seq<char>)
    requires
        trim(s) == s,
        s.len() > 0,
    ensures
        !is_space(s[0]),
        !is_space(s.last()),
{
    lemma_trim_start_suffix(s);
    let k = choose|k: int| 0 <= k <= s.len() && trim_start(s) == s.skip(k) && (forall|j: int| 0 <= j < k ==> #[trigger] is_space(s[j])) && (k < s.len() ==> !is_space(s[k]));
    lemma_trim_end_prefix(trim_start(s));
    assert(trim_start(s).len() <= s.len() - k);
    assert(k == 0);
    if is_space(s.last()) {
        assert(trim_end(s) == trim_end(s.drop_last()));
        lemma_trim_end_prefix(s.drop_last());
        assert(trim_end(s).len() < s.len());
    }
}

/// `find_from` lands on the first occurrence.
pub proof fn lemma_find_from_is_pub(s: Seq<char>, c: char, from: int, i: int)
    requires
        0 <= from <= i < s.len(),
        s[i] == c,
        forall|j: int| from <= j < i ==> s[j] != c,
    ensures
        find_from(s, c, from) == Some(i),
{
    lemma_find_is(s, c, from, i);
}

/// A sequence without the separator splits into itself.
pub proof fn lemma_no_sep_find_pub(s: Seq<char>, sep: char)
    requires
        forall|j: int| 0 <= j < s.len() ==> s[j] != sep,
    ensures
        find_from(s, sep, 0) is None,
        split(s, sep) == seq![s],
{
    lemma_no_sep_find(s, sep);
}

} // verus!
