//! Text primitives over character sequences.
//!
//! Kernel interfaces are read as text; the library sees a file's content
//! as a slice of `char`s, and every operation here is specified over the
//! sequence of characters (`Seq<char>`), which is also how `String`s are
//! viewed.
use vstd::prelude::*;

verus! {

/// Unicode `White_Space`, the property behind `char::is_whitespace`.
pub open spec fn is_ws(c: char) -> bool {
    ||| ('\t' <= c && c <= '\r')
    ||| c == ' '
    ||| c == '\u{85}'
    ||| c == '\u{a0}'
    ||| c == '\u{1680}'
    ||| ('\u{2000}' <= c && c <= '\u{200a}')
    ||| c == '\u{2028}'
    ||| c == '\u{2029}'
    ||| c == '\u{202f}'
    ||| c == '\u{205f}'
    ||| c == '\u{3000}'
}

/// Whether `c` is whitespace in the sense of `char::is_whitespace`.
pub fn is_whitespace(c: char) -> (r: bool)
    ensures
        r == is_ws(c),
{
    ('\t' <= c && c <= '\r') || c == ' ' || c == '\u{85}' || c == '\u{a0}' || c == '\u{1680}'
        || ('\u{2000}' <= c && c <= '\u{200a}') || c == '\u{2028}' || c == '\u{2029}'
        || c == '\u{202f}' || c == '\u{205f}' || c == '\u{3000}'
}

/// `s` with its leading whitespace removed.
pub open spec fn trim_start(s: Seq<char>) -> Seq<char>
    decreases s.len(),
{
    if s.len() > 0 && is_ws(s[0]) {
        trim_start(s.drop_first())
    } else {
        s
    }
}

/// `s` with its trailing whitespace removed.
pub open spec fn trim_end(s: Seq<char>) -> Seq<char>
    decreases s.len(),
{
    if s.len() > 0 && is_ws(s.last()) {
        trim_end(s.drop_last())
    } else {
        s
    }
}

/// `str::trim`: both ends stripped of whitespace.
pub open spec fn trim(s: Seq<char>) -> Seq<char> {
    trim_end(trim_start(s))
}

/// `trim_start` removes exactly a whitespace prefix.
pub proof fn lemma_trim_start_is_suffix(s: Seq<char>)
    ensures
        trim_start(s).len() <= s.len(),
        trim_start(s) == s.skip(s.len() - trim_start(s).len()),
        forall|i: int| 0 <= i < s.len() - trim_start(s).len() ==> is_ws(#[trigger] s[i]),
        trim_start(s).len() > 0 ==> !is_ws(trim_start(s)[0]),
    decreases s.len(),
{
    if s.len() > 0 && is_ws(s[0]) {
        lemma_trim_start_is_suffix(s.drop_first());
        assert(s.drop_first().skip(s.drop_first().len() - trim_start(s).len()) =~= s.skip(
            s.len() - trim_start(s).len(),
        ));
        assert forall|i: int| 0 <= i < s.len() - trim_start(s).len() implies is_ws(
            #[trigger] s[i],
        ) by {
            if i > 0 {
                assert(s[i] == s.drop_first()[i - 1]);
            }
        }
    } else {
        assert(s.skip(0) =~= s);
    }
}

/// `trim_end` removes exactly a whitespace suffix.
pub proof fn lemma_trim_end_is_prefix(s: Seq<char>)
    ensures
        trim_end(s).len() <= s.len(),
        trim_end(s) == s.take(trim_end(s).len() as int),
        forall|i: int| trim_end(s).len() <= i < s.len() ==> is_ws(#[trigger] s[i]),
        trim_end(s).len() > 0 ==> !is_ws(trim_end(s).last()),
    decreases s.len(),
{
    if s.len() > 0 && is_ws(s.last()) {
        lemma_trim_end_is_prefix(s.drop_last());
        assert(s.drop_last().take(trim_end(s).len() as int) =~= s.take(trim_end(s).len() as int));
        assert forall|i: int| trim_end(s).len() <= i < s.len() implies is_ws(#[trigger] s[i]) by {
            if i < s.len() - 1 {
                assert(s[i] == s.drop_last()[i]);
            }
        }
    } else {
        assert(s.take(s.len() as int) =~= s);
    }
}

/// A whitespace prefix followed by a non-whitespace character is what
/// `trim_start` removes.
proof fn lemma_trim_start_at(s: Seq<char>, k: int)
    requires
        0 <= k <= s.len(),
        forall|i: int| 0 <= i < k ==> is_ws(#[trigger] s[i]),
        k == s.len() || !is_ws(s[k]),
    ensures
        trim_start(s) == s.skip(k),
    decreases k,
{
    if k == 0 {
        assert(s.skip(0) =~= s);
    } else {
        assert(is_ws(s[0]));
        let t = s.drop_first();
        assert forall|i: int| 0 <= i < k - 1 implies is_ws(#[trigger] t[i]) by {
            assert(t[i] == s[i + 1]);
        }
        if k - 1 < t.len() {
            assert(t[k - 1] == s[k]);
        }
        lemma_trim_start_at(t, k - 1);
        assert(t.skip(k - 1) =~= s.skip(k));
    }
}

/// A whitespace suffix preceded by a non-whitespace character is what
/// `trim_end` removes.
proof fn lemma_trim_end_at(s: Seq<char>, k: int)
    requires
        0 <= k <= s.len(),
        forall|i: int| k <= i < s.len() ==> is_ws(#[trigger] s[i]),
        k == 0 || !is_ws(s[k - 1]),
    ensures
        trim_end(s) == s.take(k),
    decreases s.len() - k,
{
    if k == s.len() {
        assert(s.take(k) =~= s);
    } else {
        assert(is_ws(s.last()));
        let t = s.drop_last();
        assert forall|i: int| k <= i < t.len() implies is_ws(#[trigger] t[i]) by {
            assert(t[i] == s[i]);
        }
        if k > 0 {
            assert(t[k - 1] == s[k - 1]);
        }
        lemma_trim_end_at(t, k);
        assert(t.take(k) =~= s.take(k));
    }
}

/// The characters `s[start..end]` as a new vector.
pub fn copy_range(s: &[char], start: usize, end: usize) -> (r: Vec<char>)
    requires
        start <= end <= s@.len(),
    ensures
        r@ == s@.subrange(start as int, end as int),
{
    let mut r: Vec<char> = Vec::new();
    let mut i: usize = start;
    while i < end
        invariant
            start <= i <= end <= s@.len(),
            r@ == s@.subrange(start as int, i as int),
        decreases end - i,
    {
        r.push(s[i]);
        assert(r@ =~= s@.subrange(start as int, i + 1));
        i = i + 1;
    }
    r
}

/// The texts held by a list of character vectors.
pub open spec fn text_views(v: Seq<Vec<char>>) -> Seq<Seq<char>> {
    Seq::new(v.len(), |i: int| v[i]@)
}

/// `str::trim`.
pub fn trim_chars(s: &[char]) -> (r: Vec<char>)
    ensures
        r@ == trim(s@),
{
    let mut a: usize = 0;
    while a < s.len() && is_whitespace(s[a])
        invariant
            a <= s@.len(),
            forall|i: int| 0 <= i < a ==> is_ws(#[trigger] s@[i]),
        decreases s@.len() - a,
    {
        a = a + 1;
    }
    proof {
        lemma_trim_start_at(s@, a as int);
    }
    let mut b: usize = s.len();
    while b > a && is_whitespace(s[b - 1])
        invariant
            a <= b <= s@.len(),
            forall|i: int| b <= i < s@.len() ==> is_ws(#[trigger] s@[i]),
        decreases b,
    {
        b = b - 1;
    }
    proof {
        let t = s@.skip(a as int);
        let k = (b - a) as int;
        assert forall|i: int| k <= i < t.len() implies is_ws(#[trigger] t[i]) by {
            assert(t[i] == s@[i + a]);
        }
        if k > 0 {
            assert(t[k - 1] == s@[b - 1]);
        }
        lemma_trim_end_at(t, k);
        assert(t.take(k) =~= s@.subrange(a as int, b as int));
    }
    copy_range(s, a, b)
}

/// `p` is a prefix of `s`.
pub open spec fn has_prefix(s: Seq<char>, p: Seq<char>) -> bool {
    p.len() <= s.len() && s.take(p.len() as int) == p
}

/// `str::starts_with`.
pub fn starts_with(s: &[char], p: &[char]) -> (r: bool)
    ensures
        r == has_prefix(s@, p@),
{
    if p.len() > s.len() {
        return false;
    }
    let mut i: usize = 0;
    while i < p.len()
        invariant
            p@.len() <= s@.len(),
            i <= p@.len(),
            forall|j: int| 0 <= j < i ==> s@[j] == p@[j],
        decreases p@.len() - i,
    {
        if s[i] != p[i] {
            assert(s@.take(p@.len() as int)[i as int] != p@[i as int]);
            return false;
        }
        i = i + 1;
    }
    assert(s@.take(p@.len() as int) =~= p@);
    true
}

/// `str::strip_prefix`.
pub fn strip_prefix(s: &[char], p: &[char]) -> (r: Option<Vec<char>>)
    ensures
        match r {
            Some(rest) => has_prefix(s@, p@) && rest@ == s@.skip(p@.len() as int),
            None => !has_prefix(s@, p@),
        },
{
    if starts_with(s, p) {
        Some(copy_range(s, p.len(), s.len()))
    } else {
        None
    }
}

/// Index of the first `c` in `s`, or `s.len()` when there is none.
pub open spec fn find(s: Seq<char>, c: char) -> int
    decreases s.len(),
{
    if s.len() == 0 {
        0
    } else if s[0] == c {
        0
    } else {
        1 + find(s.drop_first(), c)
    }
}

/// What `find` returns, characterized.
pub proof fn lemma_find(s: Seq<char>, c: char)
    ensures
        0 <= find(s, c) <= s.len(),
        forall|j: int| 0 <= j < find(s, c) ==> s[j] != c,
        find(s, c) < s.len() ==> s[find(s, c)] == c,
    decreases s.len(),
{
    if s.len() > 0 && s[0] != c {
        lemma_find(s.drop_first(), c);
        assert forall|j: int| 0 <= j < find(s, c) implies s[j] != c by {
            if j > 0 {
                assert(s[j] == s.drop_first()[j - 1]);
            }
        }
    }
}

/// The first position holding `c` is `find`.
pub proof fn lemma_find_at(s: Seq<char>, c: char, k: int)
    requires
        0 <= k <= s.len(),
        forall|j: int| 0 <= j < k ==> s[j] != c,
        k == s.len() || s[k] == c,
    ensures
        find(s, c) == k,
    decreases k,
{
    if k > 0 {
        let t = s.drop_first();
        assert forall|j: int| 0 <= j < k - 1 implies t[j] != c by {
            assert(t[j] == s[j + 1]);
        }
        if k < s.len() {
            assert(t[k - 1] == s[k]);
        }
        assert(s[0] != c);
        lemma_find_at(t, c, k - 1);
    }
}

/// Index of the first `c` in `s[from..]`, or `s.len()`.
pub fn find_from(s: &[char], c: char, from: usize) -> (r: usize)
    requires
        from <= s@.len(),
    ensures
        r == from + find(s@.skip(from as int), c),
        from <= r <= s@.len(),
{
    let mut i: usize = from;
    while i < s.len() && s[i] != c
        invariant
            from <= i <= s@.len(),
            forall|j: int| from <= j < i ==> s@[j] != c,
        decreases s@.len() - i,
    {
        i = i + 1;
    }
    proof {
        let t = s@.skip(from as int);
        assert forall|j: int| 0 <= j < i - from implies t[j] != c by {
            assert(t[j] == s@[j + from]);
        }
        if i < s@.len() {
            assert(t[i - from] == s@[i as int]);
        }
        lemma_find_at(t, c, i - from);
    }
    i
}

/// `str::split_once` on a single character.
pub open spec fn split_once(s: Seq<char>, c: char) -> Option<(Seq<char>, Seq<char>)> {
    let i = find(s, c);
    if i < s.len() {
        Some((s.take(i), s.skip(i + 1)))
    } else {
        None
    }
}

/// `str::split_once(c)`.
pub fn split_once_char(s: &[char], c: char) -> (r: Option<(Vec<char>, Vec<char>)>)
    ensures
        match r {
            Some((a, b)) => split_once(s@, c) == Some((a@, b@)),
            None => split_once(s@, c) is None,
        },
{
    let i = find_from(s, c, 0);
    assert(s@.skip(0) =~= s@);
    if i < s.len() {
        let a = copy_range(s, 0, i);
        let b = copy_range(s, i + 1, s.len());
        assert(a@ =~= s@.take(i as int));
        assert(b@ =~= s@.skip(i + 1));
        Some((a, b))
    } else {
        None
    }
}


/// A line without its `\r` when it was terminated by `\r\n`.
pub open spec fn strip_cr(l: Seq<char>) -> Seq<char> {
    if l.len() > 0 && l.last() == '\r' {
        l.drop_last()
    } else {
        l
    }
}

/// `str::lines`: split at `\n` (dropping a `\r` before it); a final line
/// ending is optional and produces no empty last line.
pub open spec fn lines(s: Seq<char>) -> Seq<Seq<char>>
    decreases s.len(),
{
    if s.len() == 0 {
        seq![]
    } else {
        let i = find(s, '\n');
        if i < s.len() {
            proof {
                lemma_find(s, '\n');
            }
            seq![strip_cr(s.take(i))] + lines(s.skip(i + 1))
        } else {
            seq![s]
        }
    }
}

/// The line that starts at `from`: its bounds without terminator, and
/// where the next line starts.
fn line_at(s: &[char], from: usize) -> (r: (usize, usize))
    requires
        from < s@.len(),
    ensures
        from < r.1 <= s@.len(),
        ({
            let t = s@.skip(from as int);
            &&& lines(t) == seq![s@.subrange(from as int, r.0 as int)] + lines(s@.skip(r.1 as int))
            &&& from <= r.0 <= r.1
        }),
{
    let nl = find_from(s, '\n', from);
    let ghost t = s@.skip(from as int);
    proof {
        lemma_find(t, '\n');
    }
    if nl < s.len() {
        let end = if nl > from && s[nl - 1] == '\r' {
            nl - 1
        } else {
            nl
        };
        proof {
            assert(t.skip(nl - from + 1) =~= s@.skip(nl + 1));
            assert(strip_cr(t.take(nl - from)) =~= s@.subrange(from as int, end as int));
        }
        (end, nl + 1)
    } else {
        proof {
            assert(t =~= s@.subrange(from as int, s@.len() as int));
            assert(s@.skip(s@.len() as int) =~= Seq::<char>::empty());
            assert(lines(Seq::<char>::empty()) =~= Seq::<Seq<char>>::empty());
            assert(seq![t] + Seq::<Seq<char>>::empty() =~= seq![t]);
        }
        (s.len(), s.len())
    }
}

/// `str::lines`.
pub fn split_lines(s: &[char]) -> (r: Vec<Vec<char>>)
    ensures
        r@.len() == lines(s@).len(),
        forall|i: int| 0 <= i < r@.len() ==> #[trigger] r@[i]@ == lines(s@)[i],
{
    let mut r: Vec<Vec<char>> = Vec::new();
    let mut pos: usize = 0;
    let ghost done: Seq<Seq<char>> = seq![];
    assert(s@.skip(0) =~= s@);
    while pos < s.len()
        invariant
            pos <= s@.len(),
            lines(s@) == done + lines(s@.skip(pos as int)),
            r@.len() == done.len(),
            forall|i: int| 0 <= i < r@.len() ==> #[trigger] r@[i]@ == done[i],
        decreases s@.len() - pos,
    {
        let (end, next) = line_at(s, pos);
        let line = copy_range(s, pos, end);
        proof {
            let t = s@.skip(pos as int);
            assert(done + lines(t) =~= done.push(line@) + lines(s@.skip(next as int)));
            done = done.push(line@);
        }
        r.push(line);
        pos = next;
    }
    proof {
        assert(s@.skip(pos as int) =~= Seq::<char>::empty());
        assert(done + Seq::<Seq<char>>::empty() =~= done);
    }
    r
}

/// Length of the run of non-whitespace characters at the start of `s`.
pub open spec fn word_len(s: Seq<char>) -> int
    decreases s.len(),
{
    if s.len() == 0 || is_ws(s[0]) {
        0
    } else {
        1 + word_len(s.drop_first())
    }
}

pub proof fn lemma_word_len(s: Seq<char>)
    ensures
        0 <= word_len(s) <= s.len(),
        forall|j: int| 0 <= j < word_len(s) ==> !is_ws(#[trigger] s[j]),
        word_len(s) < s.len() ==> is_ws(s[word_len(s)]),
    decreases s.len(),
{
    if s.len() > 0 && !is_ws(s[0]) {
        lemma_word_len(s.drop_first());
        assert forall|j: int| 0 <= j < word_len(s) implies !is_ws(#[trigger] s[j]) by {
            if j > 0 {
                assert(s[j] == s.drop_first()[j - 1]);
            }
        }
    }
}

proof fn lemma_word_len_at(s: Seq<char>, k: int)
    requires
        0 <= k <= s.len(),
        forall|j: int| 0 <= j < k ==> !is_ws(#[trigger] s[j]),
        k == s.len() || is_ws(s[k]),
    ensures
        word_len(s) == k,
    decreases k,
{
    if k > 0 {
        let t = s.drop_first();
        assert forall|j: int| 0 <= j < k - 1 implies !is_ws(#[trigger] t[j]) by {
            assert(t[j] == s[j + 1]);
        }
        if k < s.len() {
            assert(t[k - 1] == s[k]);
        }
        assert(!is_ws(s[0]));
        lemma_word_len_at(t, k - 1);
    }
}

/// `str::split_whitespace`: the maximal runs of non-whitespace characters.
pub open spec fn words(s: Seq<char>) -> Seq<Seq<char>>
    decreases s.len(),
{
    let t = trim_start(s);
    if t.len() == 0 {
        seq![]
    } else {
        proof {
            lemma_trim_start_is_suffix(s);
            lemma_word_len(t);
        }
        let w = word_len(t);
        seq![t.take(w)] + words(t.skip(w))
    }
}

/// `str::split_whitespace`.
pub fn split_words(s: &[char]) -> (r: Vec<Vec<char>>)
    ensures
        r@.len() == words(s@).len(),
        forall|i: int| 0 <= i < r@.len() ==> #[trigger] r@[i]@ == words(s@)[i],
{
    let mut r: Vec<Vec<char>> = Vec::new();
    let mut pos: usize = 0;
    let ghost done: Seq<Seq<char>> = seq![];
    assert(s@.skip(0) =~= s@);
    loop
        invariant
            pos <= s@.len(),
            words(s@) == done + words(s@.skip(pos as int)),
            r@.len() == done.len(),
            forall|i: int| 0 <= i < r@.len() ==> #[trigger] r@[i]@ == done[i],
        decreases s@.len() - pos,
    {
        let ghost rest = s@.skip(pos as int);
        let mut a: usize = pos;
        while a < s.len() && is_whitespace(s[a])
            invariant
                pos <= a <= s@.len(),
                forall|i: int| pos <= i < a ==> is_ws(#[trigger] s@[i]),
            decreases s@.len() - a,
        {
            a = a + 1;
        }
        proof {
            assert forall|i: int| 0 <= i < a - pos implies is_ws(#[trigger] rest[i]) by {
                assert(rest[i] == s@[i + pos]);
            }
            if a < s@.len() {
                assert(rest[a - pos] == s@[a as int]);
            }
            lemma_trim_start_at(rest, a - pos);
            assert(rest.skip(a - pos) =~= s@.skip(a as int));
        }
        if a == s.len() {
            proof {
                assert(trim_start(rest).len() == 0);
                assert(done + Seq::<Seq<char>>::empty() =~= done);
            }
            return r;
        }
        let mut b: usize = a;
        while b < s.len() && !is_whitespace(s[b])
            invariant
                a <= b <= s@.len(),
                forall|i: int| a <= i < b ==> !is_ws(#[trigger] s@[i]),
            decreases s@.len() - b,
        {
            b = b + 1;
        }
        let ghost t = s@.skip(a as int);
        proof {
            assert forall|i: int| 0 <= i < b - a implies !is_ws(#[trigger] t[i]) by {
                assert(t[i] == s@[i + a]);
            }
            if b < s@.len() {
                assert(t[b - a] == s@[b as int]);
            }
            lemma_word_len_at(t, b - a);
            assert(t.take(b - a) =~= s@.subrange(a as int, b as int));
            assert(t.skip(b - a) =~= s@.skip(b as int));
        }
        let w = copy_range(s, a, b);
        proof {
            assert(done + words(rest) =~= done.push(w@) + words(s@.skip(b as int)));
            done = done.push(w@);
        }
        r.push(w);
        pos = b;
    }
}

/// The value of a non-empty run of ASCII digits.
pub open spec fn digits_value(d: Seq<char>) -> nat
    decreases d.len(),
{
    if d.len() == 0 {
        0
    } else {
        digits_value(d.drop_last()) * 10 + ((d.last() as u32 - 48) as nat)
    }
}

/// `c` is one of `0`..`9`.
pub open spec fn is_digit(c: char) -> bool {
    '0' <= c && c <= '9'
}

pub open spec fn all_digits(d: Seq<char>) -> bool {
    forall|i: int| 0 <= i < d.len() ==> is_digit(#[trigger] d[i])
}

/// The digits that `str::parse` reads for an unsigned integer: an optional
/// leading `+` is skipped.
pub open spec fn unsigned_digits(s: Seq<char>) -> Seq<char> {
    if s.len() > 0 && s[0] == '+' {
        s.drop_first()
    } else {
        s
    }
}

/// `str::parse` of an unsigned integer whose type holds `0..=max`.
pub open spec fn parse_unsigned(s: Seq<char>, max: nat) -> Option<nat> {
    let d = unsigned_digits(s);
    if d.len() > 0 && all_digits(d) && digits_value(d) <= max {
        Some(digits_value(d))
    } else {
        None
    }
}

proof fn lemma_digits_value_mono(d: Seq<char>, k: int)
    requires
        0 <= k <= d.len(),
        all_digits(d),
    ensures
        digits_value(d.take(k)) <= digits_value(d),
    decreases d.len() - k,
{
    if k < d.len() {
        let e = d.drop_last();
        assert(d.take(k) =~= e.take(k));
        assert forall|i: int| 0 <= i < e.len() implies is_digit(#[trigger] e[i]) by {
            assert(e[i] == d[i]);
        }
        lemma_digits_value_mono(e, k);
    } else {
        assert(d.take(k) =~= d);
    }
}

/// `str::parse` for an unsigned integer type whose largest value is `max`.
pub fn parse_decimal(s: &[char], max: u64) -> (r: Option<u64>)
    ensures
        match r {
            Some(v) => parse_unsigned(s@, max as nat) == Some(v as nat),
            None => parse_unsigned(s@, max as nat) is None,
        },
{
    let start: usize = if s.len() > 0 && s[0] == '+' {
        1
    } else {
        0
    };
    let ghost d = unsigned_digits(s@);
    assert(d =~= s@.skip(start as int));
    if start == s.len() {
        return None;
    }
    let mut v: u64 = 0;
    let mut i: usize = start;
    while i < s.len()
        invariant
            start <= i <= s@.len(),
            d == s@.skip(start as int),
            d == unsigned_digits(s@),
            forall|j: int| 0 <= j < i - start ==> is_digit(#[trigger] d[j]),
            v as nat == digits_value(d.take(i - start)),
            v <= max,
        decreases s@.len() - i,
    {
        let c = s[i];
        if !('0' <= c && c <= '9') {
            assert(d[i - start] == c);
            assert(!is_digit(d[i - start]));
            return None;
        }
        let digit: u64 = (c as u32 - 48) as u64;
        proof {
            let p = d.take(i - start + 1);
            assert(p.drop_last() =~= d.take(i - start));
            assert(p.last() == c);
            assert(digits_value(p) == v * 10 + digit);
        }
        if digit > max || v > (max - digit) / 10 {
            proof {
                let p = d.take(i - start + 1);
                assert(digits_value(p) > max) by (nonlinear_arith)
                    requires
                        digits_value(p) == v * 10 + digit,
                        digit > max || v > (max - digit) / 10,
                        v >= 0,
                ;
                if all_digits(d) {
                    lemma_digits_value_mono(d, i - start + 1);
                }
            }
            return None;
        }
        proof {
            assert(v * 10 + digit <= max) by (nonlinear_arith)
                requires
                    v <= (max - digit) / 10,
                    digit <= max,
            ;
        }
        v = v * 10 + digit;
        i = i + 1;
    }
    assert(d.take(d.len() as int) =~= d);
    Some(v)
}

/// The characters of `s`, in order.
pub fn chars_of(s: &str) -> (r: Vec<char>)
    ensures
        r@ == s@,
{
    broadcast use vstd::string::group_string_axioms;
    let mut r: Vec<char> = Vec::new();
    for c in it: s.chars()
        invariant
            r@ == it.seq().take(it.index()),
            it.seq() == s@,
    {
        r.push(c);
        assert(r@ =~= it.seq().take(it.index() + 1));
    }
    assert(r@ =~= s@);
    r
}

/// Character-wise equality of two texts.
pub fn same_chars(a: &[char], b: &[char]) -> (r: bool)
    ensures
        r == (a@ == b@),
{
    if a.len() != b.len() {
        return false;
    }
    let mut i: usize = 0;
    while i < a.len()
        invariant
            a@.len() == b@.len(),
            i <= a@.len(),
            forall|j: int| 0 <= j < i ==> a@[j] == b@[j],
        decreases a@.len() - i,
    {
        if a[i] != b[i] {
            return false;
        }
        i = i + 1;
    }
    assert(a@ =~= b@);
    true
}

/// `pat` occurs in `s` at position `i`.
pub open spec fn occurs_at(s: Seq<char>, pat: Seq<char>, i: int) -> bool {
    0 <= i && i + pat.len() <= s.len() && s.subrange(i, i + pat.len()) == pat
}

/// `str::contains` for a text pattern.
pub open spec fn contains_text(s: Seq<char>, pat: Seq<char>) -> bool {
    exists|i: int| occurs_at(s, pat, i)
}

/// `str::contains(pat)`.
pub fn contains(s: &[char], pat: &[char]) -> (r: bool)
    ensures
        r == contains_text(s@, pat@),
{
    if pat.len() > s.len() {
        assert forall|i: int| !occurs_at(s@, pat@, i) by {}
        return false;
    }
    let mut i: usize = 0;
    let last = s.len() - pat.len();
    while i <= last
        invariant
            pat@.len() <= s@.len(),
            last == s@.len() - pat@.len(),
            i <= last + 1,
            forall|j: int| 0 <= j < i ==> !occurs_at(s@, pat@, j),
        decreases last + 1 - i,
    {
        let mut k: usize = 0;
        let mut ok = true;
        while k < pat.len()
            invariant
                i + pat@.len() <= s@.len(),
                s@.len() == s.len(),
                k <= pat@.len(),
                ok ==> forall|j: int| 0 <= j < k ==> s@[i + j] == pat@[j],
                !ok ==> !occurs_at(s@, pat@, i as int),
            decreases pat@.len() - k,
        {
            if s[i + k] != pat[k] {
                assert(s@.subrange(i as int, i + pat@.len())[k as int] == s@[i + k]);
                ok = false;
            }
            k = k + 1;
        }
        if ok {
            assert(s@.subrange(i as int, i + pat@.len()) =~= pat@);
            assert(occurs_at(s@, pat@, i as int));
            return true;
        }
        if i == last {
            assert forall|j: int| !occurs_at(s@, pat@, j) by {
                if 0 <= j < i {
                }
            }
            return false;
        }
        i = i + 1;
    }
    assert forall|j: int| !occurs_at(s@, pat@, j) by {
        if 0 <= j < i {
        }
    }
    false
}

/// Position of the first occurrence of `pat` in `s`; `s.len()` or more
/// when there is none.
pub open spec fn find_text(s: Seq<char>, pat: Seq<char>) -> int
    decreases s.len(),
{
    if pat.len() > s.len() {
        s.len() as int
    } else if s.take(pat.len() as int) == pat {
        0
    } else if s.len() == 0 {
        0
    } else {
        1 + find_text(s.drop_first(), pat)
    }
}

/// What `find_text` returns, characterized.
pub proof fn lemma_find_text(s: Seq<char>, pat: Seq<char>)
    ensures
        0 <= find_text(s, pat),
        find_text(s, pat) + pat.len() <= s.len() ==> occurs_at(s, pat, find_text(s, pat)),
        forall|j: int| 0 <= j < find_text(s, pat) ==> !occurs_at(s, pat, j),
        find_text(s, pat) + pat.len() > s.len() ==> !contains_text(s, pat),
    decreases s.len(),
{
    if pat.len() > s.len() {
        assert forall|j: int| !occurs_at(s, pat, j) by {}
    } else if s.take(pat.len() as int) == pat {
        assert(s.subrange(0, pat.len() as int) == s.take(pat.len() as int));
    } else if s.len() == 0 {
        assert(s.take(pat.len() as int) =~= pat);
    } else {
        let t = s.drop_first();
        lemma_find_text(t, pat);
        assert(!occurs_at(s, pat, 0)) by {
            assert(s.subrange(0, pat.len() as int) == s.take(pat.len() as int));
        }
        assert forall|j: int| 1 <= j <= s.len() implies occurs_at(s, pat, j) == occurs_at(
            t,
            pat,
            j - 1,
        ) by {
            if 0 <= j - 1 && j - 1 + pat.len() <= t.len() {
                assert(s.subrange(j, j + pat.len()) =~= t.subrange(j - 1, j - 1 + pat.len()));
            }
        }
        if find_text(s, pat) + pat.len() > s.len() {
            assert forall|j: int| !occurs_at(s, pat, j) by {
                if 1 <= j <= s.len() {
                    assert(!contains_text(t, pat));
                    assert(!occurs_at(t, pat, j - 1));
                }
            }
        }
    }
}

/// `str::split_once` on a text pattern.
pub open spec fn split_once_text(s: Seq<char>, pat: Seq<char>) -> Option<(Seq<char>, Seq<char>)> {
    let i = find_text(s, pat);
    if i + pat.len() <= s.len() {
        Some((s.take(i), s.skip(i + pat.len())))
    } else {
        None
    }
}

/// `str::split_once(pat)`.
pub fn split_once_at(s: &[char], pat: &[char]) -> (r: Option<(Vec<char>, Vec<char>)>)
    ensures
        match r {
            Some((a, b)) => split_once_text(s@, pat@) == Some((a@, b@)),
            None => split_once_text(s@, pat@) is None,
        },
{
    if pat.len() > s.len() {
        return None;
    }
    let last = s.len() - pat.len();
    let mut i: usize = 0;
    assert(s@.skip(0) =~= s@);
    loop
        invariant
            pat@.len() <= s@.len(),
            last == s@.len() - pat@.len(),
            i <= last,
            find_text(s@, pat@) == i + find_text(s@.skip(i as int), pat@),
        decreases last - i,
    {
        let ghost t = s@.skip(i as int);
        let mut k: usize = 0;
        while k < pat.len() && s[i + k] == pat[k]
            invariant
                i + pat@.len() <= s@.len(),
                s@.len() == s.len(),
                k <= pat@.len(),
                forall|j: int| 0 <= j < k ==> s@[i + j] == pat@[j],
            decreases pat@.len() - k,
        {
            k = k + 1;
        }
        if k == pat.len() {
            proof {
                assert(t.take(pat@.len() as int) =~= pat@);
                assert(s@.take(i as int) =~= s@.take(i as int));
            }
            let a = copy_range(s, 0, i);
            let b = copy_range(s, i + pat.len(), s.len());
            return Some((a, b));
        }
        proof {
            assert(t.take(pat@.len() as int)[k as int] != pat@[k as int]);
            assert(t.drop_first() =~= s@.skip(i + 1));
        }
        proof {
            assert(t.take(pat@.len() as int) != pat@);
            assert(t.len() > 0);
            assert(find_text(t, pat@) == 1 + find_text(t.drop_first(), pat@));
        }
        if i == last {
            proof {
                assert(pat@.len() > t.drop_first().len());
                assert(find_text(t.drop_first(), pat@) == t.drop_first().len());
            }
            return None;
        }
        i = i + 1;
    }
}

/// The part of `s` after its last `c` (all of `s` when there is none):
/// the first item of `str::rsplit(c)`.
pub open spec fn last_segment(s: Seq<char>, c: char) -> Seq<char>
    decreases s.len(),
{
    if s.len() == 0 {
        s
    } else if s.last() == c {
        Seq::empty()
    } else {
        last_segment(s.drop_last(), c).push(s.last())
    }
}

/// `s.rsplit(c).next()`.
pub fn last_segment_of(s: &[char], c: char) -> (r: Vec<char>)
    ensures
        r@ == last_segment(s@, c),
{
    let mut a: usize = s.len();
    assert(s@.take(s@.len() as int) =~= s@);
    assert(s@ + s@.skip(s@.len() as int) =~= s@);
    while a > 0 && s[a - 1] != c
        invariant
            a <= s@.len(),
            last_segment(s@, c) == last_segment(s@.take(a as int), c) + s@.skip(a as int),
        decreases a,
    {
        proof {
            let t = s@.take(a as int);
            assert(t.drop_last() =~= s@.take(a - 1));
            assert(t.last() == s@[a - 1]);
            assert(last_segment(t.drop_last(), c).push(t.last()) + s@.skip(a as int) =~= last_segment(
                s@.take(a - 1),
                c,
            ) + s@.skip(a - 1));
        }
        a = a - 1;
    }
    proof {
        let t = s@.take(a as int);
        if a > 0 {
            assert(t.last() == s@[a - 1]);
        }
        assert(last_segment(t, c) =~= Seq::<char>::empty());
        assert(Seq::<char>::empty() + s@.skip(a as int) =~= s@.skip(a as int));
    }
    copy_range(s, a, s.len())
}

/// The ASCII digit for `d < 10`.
pub open spec fn digit_char(d: nat) -> char {
    (d + 48) as char
}

/// The decimal digits of `n`, most significant first, no leading zero.
pub open spec fn decimal(n: nat) -> Seq<char>
    decreases n,
{
    if n < 10 {
        seq![digit_char(n)]
    } else {
        decimal(n / 10).push(digit_char(n % 10))
    }
}

/// `n.to_string()`.
pub fn decimal_of(n: u64) -> (r: Vec<char>)
    ensures
        r@ == decimal(n as nat),
{
    let mut rev: Vec<char> = Vec::new();
    let mut m: u64 = n;
    loop
        invariant
            m <= n,
            decimal(n as nat) == decimal(m as nat) + rev@.reverse(),
        decreases m,
    {
        let d: u8 = (m % 10) as u8;
        let ch = (d + 48) as char;
        proof {
            assert(ch == digit_char((m % 10) as nat));
        }
        if m < 10 {
            rev.push(ch);
            proof {
                assert(rev@.reverse() =~= seq![ch] + rev@.drop_last().reverse());
            }
            let mut r: Vec<char> = Vec::new();
            let mut i = rev.len();
            while i > 0
                invariant
                    i <= rev@.len(),
                    r@ == rev@.skip(i as int).reverse(),
                decreases i,
            {
                i = i - 1;
                r.push(rev[i]);
                proof {
                    assert(rev@.skip(i as int).reverse() =~= rev@.skip(i + 1).reverse().push(rev@[i as int]));
                }
            }
            proof {
                assert(rev@.skip(0) =~= rev@);
                assert(decimal(n as nat) =~= rev@.reverse());
            }
            return r;
        }
        let ghost old_rev = rev@;
        rev.push(ch);
        proof {
            assert(rev@.reverse() =~= seq![ch] + old_rev.reverse());
            assert(decimal(m as nat) == decimal((m / 10) as nat).push(ch));
            assert(decimal((m / 10) as nat).push(ch) + old_rev.reverse() =~= decimal((m / 10) as nat)
                + (seq![ch] + old_rev.reverse()));
        }
        m = m / 10;
    }
}

/// `p` ends `s`.
pub open spec fn has_suffix(s: Seq<char>, p: Seq<char>) -> bool {
    p.len() <= s.len() && s.skip(s.len() - p.len()) == p
}

/// `str::ends_with`.
pub fn ends_with(s: &[char], p: &[char]) -> (r: bool)
    ensures
        r == has_suffix(s@, p@),
{
    if p.len() > s.len() {
        return false;
    }
    let start = s.len() - p.len();
    let mut i: usize = 0;
    while i < p.len()
        invariant
            start == s@.len() - p@.len(),
            s@.len() == s.len(),
            i <= p@.len(),
            forall|j: int| 0 <= j < i ==> s@[start + j] == p@[j],
        decreases p@.len() - i,
    {
        if s[start + i] != p[i] {
            assert(s@.skip(start as int)[i as int] == s@[start + i]);
            return false;
        }
        i = i + 1;
    }
    assert(s@.skip(start as int) =~= p@);
    true
}

/// Appends the characters of `s` to `r`.
pub fn append(r: &mut Vec<char>, s: &[char])
    ensures
        final(r)@ == old(r)@ + s@,
{
    let ghost base = r@;
    let mut k: usize = 0;
    while k < s.len()
        invariant
            k <= s@.len(),
            r@ == base + s@.take(k as int),
        decreases s@.len() - k,
    {
        r.push(s[k]);
        proof {
            assert(base + s@.take(k + 1) =~= (base + s@.take(k as int)).push(s@[k as int]));
        }
        k = k + 1;
    }
    assert(s@.take(s@.len() as int) =~= s@);
}

} // verus!
