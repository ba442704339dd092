//! Character-sequence helpers shared by the parsers of this crate.
use vstd::prelude::*;

verus! {

broadcast use vstd::string::group_string_axioms;

/// Splits `s` at every occurrence of `sep`, as `str::split` with a `char` pattern does.
pub open spec fn split_seq<A>(s: Seq<A>, sep: A) -> Seq<Seq<A>>
    decreases s.len(),
{
    if s.len() == 0 {
        seq![Seq::<A>::empty()]
    } else {
        let init = split_seq(s.drop_last(), sep);
        if s.last() == sep {
            init.push(Seq::<A>::empty())
        } else {
            init.update(init.len() - 1, init.last().push(s.last()))
        }
    }
}

pub proof fn lemma_split_nonempty<A>(s: Seq<A>, sep: A)
    ensures
        split_seq(s, sep).len() >= 1,
    decreases s.len(),
{
    if s.len() > 0 {
        lemma_split_nonempty(s.drop_last(), sep);
    }
}

/// One step of `split_seq`: appending a character either opens a new piece or extends the last one.
pub proof fn lemma_split_push<A>(s: Seq<A>, c: A, sep: A)
    ensures
        split_seq(s.push(c), sep) == (if c == sep {
            split_seq(s, sep).push(Seq::<A>::empty())
        } else {
            split_seq(s, sep).update(
                split_seq(s, sep).len() - 1,
                split_seq(s, sep).last().push(c),
            )
        }),
{
    assert(s.push(c).drop_last() =~= s);
}

/// The characters of a string slice, in order.
pub fn chars_of(s: &str) -> (v: Vec<char>)
    ensures
        v@ == s@,
{
    let mut v: Vec<char> = Vec::new();
    for c in it: s.chars()
        invariant
            v@ == it.seq().take(it.index() as int),
            it.seq() == s@,
    {
        v.push(c);
    }
    v
}


/// A string assembled from characters.
#[verifier::external_body]
pub(crate) fn string_of(chars: &[char]) -> (s: String)
    ensures
        s@ == chars@,
{
    chars.iter().collect()
}

/// `char::is_whitespace`: the Unicode `White_Space` property.
pub open spec fn is_unicode_whitespace(c: char) -> bool {
    let u = c as u32;
    ||| 0x09 <= u <= 0x0d
    ||| u == 0x20
    ||| u == 0x85
    ||| u == 0xa0
    ||| u == 0x1680
    ||| 0x2000 <= u <= 0x200a
    ||| u == 0x2028
    ||| u == 0x2029
    ||| u == 0x202f
    ||| u == 0x205f
    ||| u == 0x3000
}

pub fn char_is_whitespace(c: char) -> (b: bool)
    ensures
        b == is_unicode_whitespace(c),
{
    let u = c as u32;
    (0x09 <= u && u <= 0x0d) || u == 0x20 || u == 0x85 || u == 0xa0 || u == 0x1680 || (0x2000
        <= u && u <= 0x200a) || u == 0x2028 || u == 0x2029 || u == 0x202f || u == 0x205f || u
        == 0x3000
}

/// `s` without leading Unicode whitespace.
pub open spec fn trim_start_seq(s: Seq<char>) -> Seq<char>
    decreases s.len(),
{
    if s.len() > 0 && is_unicode_whitespace(s[0]) {
        trim_start_seq(s.drop_first())
    } else {
        s
    }
}

/// `s` without trailing Unicode whitespace.
pub open spec fn trim_end_seq(s: Seq<char>) -> Seq<char>
    decreases s.len(),
{
    if s.len() > 0 && is_unicode_whitespace(s.last()) {
        trim_end_seq(s.drop_last())
    } else {
        s
    }
}

/// `str::trim`.
pub open spec fn trim_seq(s: Seq<char>) -> Seq<char> {
    trim_end_seq(trim_start_seq(s))
}

proof fn lemma_trim_start_skip(s: Seq<char>, i: int)
    requires
        0 <= i <= s.len(),
        forall|k: int| 0 <= k < i ==> is_unicode_whitespace(#[trigger] s[k]),
    ensures
        trim_start_seq(s) == trim_start_seq(s.skip(i)),
    decreases i,
{
    if i > 0 {
        assert(s.drop_first().skip(i - 1) =~= s.skip(i));
        lemma_trim_start_skip(s.drop_first(), i - 1);
    } else {
        assert(s.skip(0) =~= s);
    }
}

proof fn lemma_trim_end_take(s: Seq<char>, j: int)
    requires
        0 <= j <= s.len(),
        forall|k: int| j <= k < s.len() ==> is_unicode_whitespace(#[trigger] s[k]),
    ensures
        trim_end_seq(s) == trim_end_seq(s.take(j)),
    decreases s.len() - j,
{
    if j < s.len() {
        assert(s.drop_last().take(j) =~= s.take(j));
        lemma_trim_end_take(s.drop_last(), j);
    } else {
        assert(s.take(j) =~= s);
    }
}

/// Bounds `(start, end)` such that `s[start..end]` is `trim_seq(s)`.
pub fn trim_bounds(s: &[char]) -> (r: (usize, usize))
    ensures
        r.0 <= r.1 <= s@.len(),
        s@.subrange(r.0 as int, r.1 as int) == trim_seq(s@),
{
    let n = s.len();
    let mut i: usize = 0;
    while i < n && char_is_whitespace(s[i])
        invariant
            i <= n == s@.len(),
            forall|k: int| 0 <= k < i ==> is_unicode_whitespace(#[trigger] s@[k]),
        decreases n - i,
    {
        i = i + 1;
    }
    proof {
        lemma_trim_start_skip(s@, i as int);
        if i < n {
            assert(!is_unicode_whitespace(s@.skip(i as int)[0]));
        }
        assert(trim_start_seq(s@.skip(i as int)) == s@.skip(i as int));
    }
    let mut j: usize = n;
    while j > i && char_is_whitespace(s[j - 1])
        invariant
            i <= j <= n == s@.len(),
            forall|k: int| j <= k < n ==> is_unicode_whitespace(#[trigger] s@[k]),
        decreases j,
    {
        j = j - 1;
    }
    proof {
        let t = s@.skip(i as int);
        assert forall|k: int| (j - i) <= k < t.len() implies is_unicode_whitespace(#[trigger] t[k]) by {
            assert(t[k] == s@[k + i]);
        }
        lemma_trim_end_take(t, j - i);
        assert(t.take(j - i) =~= s@.subrange(i as int, j as int));
        let u = s@.subrange(i as int, j as int);
        if u.len() > 0 {
            assert(u.last() == s@[j - 1]);
        }
        assert(trim_end_seq(u) == u);
    }
    (i, j)
}

/// `str::trim` on characters.
pub fn trim_chars(s: &[char]) -> (t: Vec<char>)
    ensures
        t@ == trim_seq(s@),
{
    let (a, b) = trim_bounds(s);
    slice_range(s, a, b)
}

/// A copy of `s[a..b]`.
pub fn slice_range(s: &[char], a: usize, b: usize) -> (t: Vec<char>)
    requires
        a <= b <= s@.len(),
    ensures
        t@ == s@.subrange(a as int, b as int),
{
    let mut t: Vec<char> = Vec::new();
    let mut k = a;
    while k < b
        invariant
            a <= k <= b <= s@.len(),
            t@ == s@.subrange(a as int, k as int),
        decreases b - k,
    {
        t.push(s[k]);
        k = k + 1;
        assert(t@ =~= s@.subrange(a as int, k as int));
    }
    t
}

/// `s` begins with `p`.
pub open spec fn has_prefix(s: Seq<char>, p: Seq<char>) -> bool {
    p.len() <= s.len() && s.take(p.len() as int) == p
}

/// `s` ends with `p`.
pub open spec fn has_suffix(s: Seq<char>, p: Seq<char>) -> bool {
    p.len() <= s.len() && s.skip(s.len() - p.len()) == p
}

/// `p` occurs in `s` at index `i`.
pub open spec fn occurs_at(s: Seq<char>, p: Seq<char>, i: int) -> bool {
    0 <= i && i + p.len() <= s.len() && s.subrange(i, i + p.len()) == p
}

/// `p` occurs somewhere in `s` (`str::contains` with a string pattern).
pub open spec fn contains_seq(s: Seq<char>, p: Seq<char>) -> bool {
    exists|i: int| occurs_at(s, p, i)
}

/// Whether `s[at..]` begins with `p`.
pub fn matches_at(s: &[char], p: &[char], at: usize) -> (b: bool)
    requires
        at <= s@.len(),
    ensures
        b == occurs_at(s@, p@, at as int),
{
    let n = s.len();
    if p.len() > n - at {
        return false;
    }
    let mut k: usize = 0;
    while k < p.len()
        invariant
            n == s@.len(),
            at + p@.len() <= s@.len(),
            k <= p@.len(),
            forall|m: int| 0 <= m < k ==> s@[at + m] == p@[m],
        decreases p@.len() - k,
    {
        if s[at + k] != p[k] {
            assert(s@.subrange(at as int, at + p@.len())[k as int] != p@[k as int]);
            return false;
        }
        k = k + 1;
    }
    assert(s@.subrange(at as int, at + p@.len()) =~= p@);
    true
}

pub fn starts_with(s: &[char], p: &[char]) -> (b: bool)
    ensures
        b == has_prefix(s@, p@),
{
    let r = matches_at(s, p, 0);
    proof {
        if p@.len() <= s@.len() {
            assert(s@.subrange(0, p@.len() as int) =~= s@.take(p@.len() as int));
        }
    }
    r
}

pub fn ends_with(s: &[char], p: &[char]) -> (b: bool)
    ensures
        b == has_suffix(s@, p@),
{
    if p.len() > s.len() {
        return false;
    }
    let r = matches_at(s, p, s.len() - p.len());
    proof {
        assert(s@.subrange(s@.len() - p@.len(), s@.len() as int) =~= s@.skip(s@.len() - p@.len()));
    }
    r
}

/// The first index at which `p` occurs in `s`, as `str::find` with a string pattern.
pub fn find_seq(s: &[char], p: &[char]) -> (r: Option<usize>)
    ensures
        match r {
            Some(i) => occurs_at(s@, p@, i as int) && forall|j: int|
                0 <= j < i ==> !occurs_at(s@, p@, j),
            None => !contains_seq(s@, p@),
        },
{
    let n = s.len();
    let mut i: usize = 0;
    while i <= n
        invariant
            n == s@.len(),
            forall|j: int| 0 <= j < i ==> !occurs_at(s@, p@, j),
        decreases n + 1 - i,
    {
        if matches_at(s, p, i) {
            return Some(i);
        }
        if i == n {
            assert forall|j: int| !occurs_at(s@, p@, j) by {
                if 0 <= j && j + p@.len() <= s@.len() {
                    assert(j < i || j == i);
                }
            }
            return None;
        }
        i = i + 1;
    }
    None
}

/// The pieces of `s` split at every `sep`.
pub fn split_chars(s: &[char], sep: char) -> (pieces: Vec<Vec<char>>)
    ensures
        pieces.deep_view() == split_seq(s@, sep),
{
    let n = s.len();
    let mut pieces: Vec<Vec<char>> = Vec::new();
    let mut current: Vec<char> = Vec::new();
    let mut i: usize = 0;
    proof {
        assert(s@.take(0) =~= Seq::<char>::empty());
        assert(pieces.deep_view().push(current@) =~= split_seq(s@.take(0), sep));
    }
    while i < n
        invariant
            n == s@.len(),
            i <= n,
            pieces.deep_view().push(current@) =~= split_seq(s@.take(i as int), sep),
        decreases n - i,
    {
        let c = s[i];
        proof {
            lemma_split_push(s@.take(i as int), c, sep);
            assert(s@.take(i + 1) =~= s@.take(i as int).push(c));
        }
        let ghost prev = pieces.deep_view();
        if c == sep {
            let done = current;
            pieces.push(done);
            current = Vec::new();
            assert(pieces.deep_view() =~~= prev.push(done@));
        } else {
            current.push(c);
        }
        i = i + 1;
    }
    proof {
        assert(s@.take(n as int) =~= s@);
    }
    let ghost prev = pieces.deep_view();
    pieces.push(current);
    assert(pieces.deep_view() =~~= prev.push(current@));
    pieces
}

/// `line` without one trailing carriage return.
pub open spec fn strip_cr(line: Seq<char>) -> Seq<char> {
    if line.len() > 0 && line.last() == '\r' {
        line.drop_last()
    } else {
        line
    }
}

/// `str::lines`: pieces between line feeds, each ending line losing one `\r`,
/// and no empty piece after a final line feed.
pub open spec fn lines_seq(s: Seq<char>) -> Seq<Seq<char>> {
    let pieces = split_seq(s, '\n');
    let body = pieces.drop_last().map_values(|l: Seq<char>| strip_cr(l));
    if pieces.last().len() == 0 {
        body
    } else {
        body.push(pieces.last())
    }
}

/// `str::lines` on characters.
pub fn lines_of(s: &[char]) -> (lines: Vec<Vec<char>>)
    ensures
        lines.deep_view() == lines_seq(s@),
{
    let pieces = split_chars(s, '\n');
    proof {
        lemma_split_nonempty(s@, '\n');
    }
    let count = pieces.len();
    let mut lines: Vec<Vec<char>> = Vec::new();
    let mut k: usize = 0;
    while k + 1 < count
        invariant
            count == pieces@.len() >= 1,
            pieces.deep_view() == split_seq(s@, '\n'),
            k + 1 <= count,
            lines.deep_view() =~= pieces.deep_view().take(k as int).map_values(
                |l: Seq<char>| strip_cr(l),
            ),
        decreases count - k,
    {
        let piece = &pieces[k];
        let len = piece.len();
        let ghost prev = lines.deep_view();
        let line = if len > 0 && piece[len - 1] == '\r' {
            slice_range(piece.as_slice(), 0, len - 1)
        } else {
            slice_range(piece.as_slice(), 0, len)
        };
        proof {
            assert(pieces.deep_view()[k as int] == piece@);
            if len > 0 {
                assert(piece@.last() == piece@[len - 1]);
                assert(piece@.subrange(0, len - 1) =~= piece@.drop_last());
            }
            assert(piece@.subrange(0, len as int) =~= piece@);
        }
        lines.push(line);
        k = k + 1;
        assert(lines.deep_view() =~~= prev.push(line@));
        assert(pieces.deep_view().take(k as int) =~= pieces.deep_view().take(k - 1).push(
            pieces.deep_view()[k - 1],
        ));
    }
    proof {
        assert(pieces.deep_view().take(k as int) =~= pieces.deep_view().drop_last());
    }
    let last = &pieces[count - 1];
    if last.len() > 0 {
        let ghost prev = lines.deep_view();
        let copy = slice_range(last.as_slice(), 0, last.len());
        assert(copy@ =~= last@);
        lines.push(copy);
        assert(lines.deep_view() =~~= prev.push(last@));
    }
    lines
}

/// The value of a run of decimal digits.
pub open spec fn digits_value(s: Seq<char>) -> nat
    decreases s.len(),
{
    if s.len() == 0 {
        0
    } else {
        digits_value(s.drop_last()) * 10 + ((s.last() as u32) - 48) as nat
    }
}

pub open spec fn is_digit(c: char) -> bool {
    '0' <= c <= '9'
}

pub open spec fn all_digits(s: Seq<char>) -> bool {
    forall|k: int| 0 <= k < s.len() ==> is_digit(#[trigger] s[k])
}

/// `s.parse::<usize>()`: an optional `+`, then at least one decimal digit, within range.
pub open spec fn parse_usize_seq(s: Seq<char>) -> Option<usize> {
    let d = if s.len() > 0 && s[0] == '+' {
        s.drop_first()
    } else {
        s
    };
    if d.len() == 0 || !all_digits(d) || digits_value(d) > usize::MAX {
        None
    } else {
        Some(digits_value(d) as usize)
    }
}

proof fn lemma_digits_monotone(s: Seq<char>, i: int)
    requires
        0 <= i <= s.len(),
        all_digits(s),
    ensures
        digits_value(s.take(i)) <= digits_value(s),
    decreases s.len() - i,
{
    if i < s.len() {
        assert(s.drop_last().take(i) =~= s.take(i));
        lemma_digits_monotone(s.drop_last(), i);
    } else {
        assert(s.take(i) =~= s);
    }
}

/// `str::parse::<usize>` on characters.
pub fn parse_usize(s: &[char]) -> (r: Option<usize>)
    ensures
        r == parse_usize_seq(s@),
{
    let n = s.len();
    let start: usize = if n > 0 && s[0] == '+' {
        1
    } else {
        0
    };
    let ghost d = if s@.len() > 0 && s@[0] == '+' {
        s@.drop_first()
    } else {
        s@
    };
    assert(d =~= s@.skip(start as int));
    if start == n {
        return None;
    }
    let mut value: usize = 0;
    let mut i = start;
    while i < n
        invariant
            start <= i <= n == s@.len(),
            d == s@.skip(start as int),
            d == (if s@.len() > 0 && s@[0] == '+' {
                s@.drop_first()
            } else {
                s@
            }),
            all_digits(d.take(i - start)),
            value as nat == digits_value(d.take(i - start)),
        decreases n - i,
    {
        let c = s[i];
        let ghost prefix = d.take(i - start);
        assert(d.take(i - start + 1).drop_last() =~= prefix);
        assert(d[i - start] == c);
        if !('0' <= c && c <= '9') {
            assert(!all_digits(d)) by {
                assert(!is_digit(d[i - start]));
            }
            assert(parse_usize_seq(s@) == None::<usize>);
            return None;
        }
        let digit = (c as u32 - 48) as usize;
        let next = match value.checked_mul(10) {
            Some(m) => m.checked_add(digit),
            None => None,
        };
        match next {
            Some(v) => {
                value = v;
            },
            None => {
                proof {
                    let q = d.take(i - start + 1);
                    assert(digits_value(q) == digits_value(prefix) * 10 + digit);
                    assert(q.drop_last() =~= prefix);
                    assert(q.last() == c);
                    assert(digits_value(q) > usize::MAX);
                    if all_digits(d) {
                        lemma_digits_monotone(d, i - start + 1);
                    }
                    assert(parse_usize_seq(s@) == None::<usize>);
                }
                return None;
            },
        }
        i = i + 1;
        proof {
            let q = d.take(i - start);
            assert(q.drop_last() =~= prefix);
            assert forall|k: int| 0 <= k < q.len() implies is_digit(#[trigger] q[k]) by {
                if k < q.len() - 1 {
                    assert(q[k] == prefix[k]);
                }
            }
        }
    }
    assert(d.take(n - start) =~= d);
    Some(value)
}

/// Lexicographic order of character sequences by code point; for strings this is
/// the byte order that `String`'s `Ord` uses.
pub open spec fn seq_lt(a: Seq<char>, b: Seq<char>) -> bool
    decreases a.len(),
{
    if a.len() == 0 {
        b.len() > 0
    } else if b.len() == 0 {
        false
    } else if a[0] != b[0] {
        a[0] < b[0]
    } else {
        seq_lt(a.drop_first(), b.drop_first())
    }
}

pub fn chars_lt(a: &[char], b: &[char]) -> (r: bool)
    ensures
        r == seq_lt(a@, b@),
{
    let mut i: usize = 0;
    assert(a@.skip(0) =~= a@ && b@.skip(0) =~= b@);
    while i < a.len() && i < b.len() && a[i] == b[i]
        invariant
            i <= a@.len(),
            i <= b@.len(),
            seq_lt(a@, b@) == seq_lt(a@.skip(i as int), b@.skip(i as int)),
        decreases a@.len() - i,
    {
        proof {
            let x = a@.skip(i as int);
            let y = b@.skip(i as int);
            assert(x.drop_first() =~= a@.skip(i + 1));
            assert(y.drop_first() =~= b@.skip(i + 1));
        }
        i = i + 1;
    }
    if i == a.len() {
        i < b.len()
    } else if i == b.len() {
        false
    } else {
        a[i] < b[i]
    }
}

/// `a < b` for strings.
pub fn str_lt(a: &str, b: &str) -> (r: bool)
    ensures
        r == seq_lt(a@, b@),
{
    let x = chars_of(a);
    let y = chars_of(b);
    chars_lt(x.as_slice(), y.as_slice())
}

/// `a == b` for strings.
pub fn str_eq(a: &str, b: &str) -> (r: bool)
    ensures
        r == (a@ == b@),
{
    let x = chars_of(a);
    let y = chars_of(b);
    if x.len() != y.len() {
        return false;
    }
    let mut i: usize = 0;
    while i < x.len()
        invariant
            x@ == a@,
            y@ == b@,
            x@.len() == y@.len(),
            i <= x@.len(),
            forall|k: int| 0 <= k < i ==> x@[k] == y@[k],
        decreases x@.len() - i,
    {
        if x[i] != y[i] {
            return false;
        }
        i = i + 1;
    }
    assert(x@ =~= y@);
    true
}

/// `i` is the first index at which `p` occurs in `s`.
pub open spec fn is_first_occurrence(s: Seq<char>, p: Seq<char>, i: int) -> bool {
    occurs_at(s, p, i) && forall|j: int| 0 <= j < i ==> !occurs_at(s, p, j)
}

/// `str::split_once` with a string pattern: the text before and after its first occurrence.
pub open spec fn split_once_seq(s: Seq<char>, p: Seq<char>) -> Option<(Seq<char>, Seq<char>)> {
    if exists|i: int| is_first_occurrence(s, p, i) {
        let i = choose|i: int| is_first_occurrence(s, p, i);
        Some((s.take(i), s.skip(i + p.len())))
    } else {
        None
    }
}

pub proof fn lemma_first_occurrence_unique(s: Seq<char>, p: Seq<char>, i: int, j: int)
    requires
        is_first_occurrence(s, p, i),
        is_first_occurrence(s, p, j),
    ensures
        i == j,
{
    if i < j {
        assert(!occurs_at(s, p, i));
    }
    if j < i {
        assert(!occurs_at(s, p, j));
    }
}

/// `str::split_once` on characters.
pub fn split_once(s: &[char], p: &[char]) -> (r: Option<(Vec<char>, Vec<char>)>)
    ensures
        match r {
            Some((a, b)) => split_once_seq(s@, p@) == Some((a@, b@)),
            None => split_once_seq(s@, p@) is None,
        },
{
    match find_seq(s, p) {
        Some(i) => {
            let n = s.len();
            assert(i + p@.len() <= n);
            let a = slice_range(s, 0, i);
            let b = slice_range(s, i + p.len(), n);
            proof {
                assert(is_first_occurrence(s@, p@, i as int));
                let k = choose|k: int| is_first_occurrence(s@, p@, k);
                lemma_first_occurrence_unique(s@, p@, i as int, k);
                assert(a@ =~= s@.take(i as int));
                assert(b@ =~= s@.skip(i + p@.len()));
            }
            Some((a, b))
        },
        None => {
            assert(!exists|i: int| is_first_occurrence(s@, p@, i));
            None
        },
    }
}

/// The pieces of a byte string split at every `sep`.
pub fn split_bytes(s: &[u8], sep: u8) -> (pieces: Vec<Vec<u8>>)
    ensures
        pieces.deep_view() == split_seq(s@, sep),
{
    let n = s.len();
    let mut pieces: Vec<Vec<u8>> = Vec::new();
    let mut current: Vec<u8> = Vec::new();
    let mut i: usize = 0;
    proof {
        assert(s@.take(0) =~= Seq::<u8>::empty());
        assert(pieces.deep_view().push(current@) =~= split_seq(s@.take(0), sep));
    }
    while i < n
        invariant
            n == s@.len(),
            i <= n,
            pieces.deep_view().push(current@) =~= split_seq(s@.take(i as int), sep),
        decreases n - i,
    {
        let c = s[i];
        proof {
            lemma_split_push(s@.take(i as int), c, sep);
            assert(s@.take(i + 1) =~= s@.take(i as int).push(c));
        }
        let ghost prev = pieces.deep_view();
        if c == sep {
            let done = current;
            pieces.push(done);
            current = Vec::new();
            assert(pieces.deep_view() =~~= prev.push(done@));
        } else {
            current.push(c);
        }
        i = i + 1;
    }
    proof {
        assert(s@.take(n as int) =~= s@);
    }
    let ghost prev = pieces.deep_view();
    pieces.push(current);
    assert(pieces.deep_view() =~~= prev.push(current@));
    pieces
}

/// The `Debug` rendering of a string: quoted, with special characters escaped.
pub uninterp spec fn debug_str(s: Seq<char>) -> Seq<char>;

/// `format!("{s:?}")` for a string slice.
#[verifier::external_body]
pub(crate) fn debug_quoted(s: &str) -> (r: String)
    ensures
        r@ == debug_str(s@),
{
    format!("{s:?}")
}

/// The decimal digits of `n`, most significant first, with no leading zeros.
pub open spec fn decimal_seq(n: nat) -> Seq<char>
    decreases n,
{
    if n < 10 {
        seq![((n + 48) as u8) as char]
    } else {
        decimal_seq(n / 10).push((((n % 10) + 48) as u8) as char)
    }
}

/// The decimal rendering of an integer, as `Display` writes it.
pub fn decimal(n: u64) -> (s: String)
    ensures
        s@ == decimal_seq(n as nat),
{
    let table: [char; 10] = ['0', '1', '2', '3', '4', '5', '6', '7', '8', '9'];
    assert forall|d: int| 0 <= d < 10 implies table@[d] == ((d + 48) as u8) as char by {
        assert(table@ =~= seq!['0', '1', '2', '3', '4', '5', '6', '7', '8', '9']);
    }
    let mut out: Vec<char> = Vec::new();
    let mut m = n;
    while m >= 10
        invariant
            forall|d: int| 0 <= d < 10 ==> table@[d] == ((d + 48) as u8) as char,
            decimal_seq(n as nat) == decimal_seq(m as nat) + out@,
        decreases m,
    {
        let c = table[(m % 10) as usize];
        out.insert(0, c);
        proof {
            assert(decimal_seq(m as nat) == decimal_seq((m / 10) as nat).push(c));
        }
        m = m / 10;
        assert(decimal_seq(n as nat) =~= decimal_seq(m as nat) + out@);
    }
    let c = table[m as usize];
    out.insert(0, c);
    assert(decimal_seq(n as nat) =~= out@);
    string_of(out.as_slice())
}

/// The pieces joined with `sep` between neighbours (`[String]::join`).
pub open spec fn join_seq(parts: Seq<Seq<char>>, sep: Seq<char>) -> Seq<char>
    decreases parts.len(),
{
    if parts.len() == 0 {
        Seq::empty()
    } else if parts.len() == 1 {
        parts[0]
    } else {
        join_seq(parts.drop_last(), sep) + sep + parts.last()
    }
}

/// `parts.join(sep)`.
pub fn join_strings(parts: &Vec<String>, sep: &str) -> (s: String)
    ensures
        s@ == join_seq(crate::order::string_views(parts@), sep@),
{
    let mut out = String::new();
    let mut k: usize = 0;
    let ghost views = crate::order::string_views(parts@);
    assert(views.take(0) =~= Seq::<Seq<char>>::empty());
    while k < parts.len()
        invariant
            views == crate::order::string_views(parts@),
            k <= parts@.len(),
            out@ == join_seq(views.take(k as int), sep@),
        decreases parts@.len() - k,
    {
        proof {
            assert(views.take(k + 1).drop_last() =~= views.take(k as int));
            assert(views.take(k + 1).last() == parts@[k as int]@);
        }
        if k > 0 {
            out.append(sep);
        } else {
            assert(views.take(1) =~= seq![parts@[0]@]);
        }
        out.append(parts[k].as_str());
        k = k + 1;
    }
    assert(views.take(parts@.len() as int) =~= views);
    out
}

/// Whether two lists of strings hold the same texts in the same order.
pub fn string_lists_eq(a: &Vec<String>, b: &Vec<String>) -> (r: bool)
    ensures
        r == (crate::order::string_views(a@) == crate::order::string_views(b@)),
{
    if a.len() != b.len() {
        assert(crate::order::string_views(a@).len() != crate::order::string_views(b@).len());
        return false;
    }
    let mut k: usize = 0;
    while k < a.len()
        invariant
            a@.len() == b@.len(),
            k <= a@.len(),
            forall|j: int| 0 <= j < k ==> a@[j]@ == b@[j]@,
        decreases a@.len() - k,
    {
        if !str_eq(a[k].as_str(), b[k].as_str()) {
            assert(crate::order::string_views(a@)[k as int] != crate::order::string_views(b@)[k as int]);
            return false;
        }
        k = k + 1;
    }
    assert(crate::order::string_views(a@) =~= crate::order::string_views(b@));
    true
}

/// Whether a list of strings holds `s`.
pub fn strings_contain(v: &Vec<String>, s: &str) -> (r: bool)
    ensures
        r == crate::order::string_views(v@).contains(s@),
{
    let mut k: usize = 0;
    while k < v.len()
        invariant
            k <= v@.len(),
            forall|j: int| 0 <= j < k ==> v@[j]@ != s@,
        decreases v@.len() - k,
    {
        if str_eq(v[k].as_str(), s) {
            assert(crate::order::string_views(v@)[k as int] == s@);
            return true;
        }
        k = k + 1;
    }
    assert(!crate::order::string_views(v@).contains(s@)) by {
        if crate::order::string_views(v@).contains(s@) {
            let w = choose|w: int| 0 <= w < v@.len() && crate::order::string_views(v@)[w] == s@;
            assert(v@[w]@ == s@);
        }
    }
    false
}

/// Whether two optional strings are both absent or hold the same text.
pub fn opt_str_eq(a: &Option<String>, b: &Option<String>) -> (r: bool)
    ensures
        r == (crate::facts::opt_view(*a) == crate::facts::opt_view(*b)),
{
    match (a, b) {
        (None, None) => true,
        (Some(x), Some(y)) => str_eq(x.as_str(), y.as_str()),
        _ => false,
    }
}

} // verus!
