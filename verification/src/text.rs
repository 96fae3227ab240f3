//! Text as sequences of characters: white space and trimming, the delimiter
//! that separates quote records, and the search for a pattern.
//!
//! The contracts speak of `Seq<char>`, the view of `str` and `String`.
//! The executable functions work on `Vec<char>`, which can be indexed in
//! constant time.
use vstd::prelude::*;

verus! {

/// Whether `c` is white space: one of the 25 code points that Unicode marks
/// as `White_Space`.
pub open spec fn is_whitespace(c: char) -> bool {
    let u = c as u32;
    ||| 0x09 <= u <= 0x0D
    ||| u == 0x20
    ||| u == 0x85
    ||| u == 0xA0
    ||| u == 0x1680
    ||| 0x2000 <= u <= 0x200A
    ||| u == 0x2028
    ||| u == 0x2029
    ||| u == 0x202F
    ||| u == 0x205F
    ||| u == 0x3000
}

/// `s` without its leading white space.
pub open spec fn trim_start(s: Seq<char>) -> Seq<char>
    decreases s.len(),
{
    if s.len() > 0 && is_whitespace(s.first()) {
        trim_start(s.drop_first())
    } else {
        s
    }
}

/// `s` without its trailing white space.
pub open spec fn trim_end(s: Seq<char>) -> Seq<char>
    decreases s.len(),
{
    if s.len() > 0 && is_whitespace(s.last()) {
        trim_end(s.drop_last())
    } else {
        s
    }
}

/// `s` without its leading and trailing white space.
pub open spec fn trim(s: Seq<char>) -> Seq<char> {
    trim_end(trim_start(s))
}

/// Every character of `s` is white space.
pub open spec fn is_blank(s: Seq<char>) -> bool {
    forall|i: int| 0 <= i < s.len() ==> is_whitespace(#[trigger] s[i])
}

/// `s` neither starts nor ends with white space.
pub open spec fn is_trimmed(s: Seq<char>) -> bool {
    s.len() > 0 ==> !is_whitespace(s.first()) && !is_whitespace(s.last())
}

/// The three characters that separate two quote records: a line that holds
/// a percent sign and nothing else.
pub open spec fn delimiter() -> Seq<char> {
    seq!['\n', '%', '\n']
}

/// The delimiter stands in `s` at index `i`.
pub open spec fn delimiter_at(s: Seq<char>, i: int) -> bool {
    &&& 0 <= i
    &&& i + 3 <= s.len()
    &&& s[i] == '\n'
    &&& s[i + 1] == '%'
    &&& s[i + 2] == '\n'
}

/// The index of the first delimiter in `s` at or after `from`, or the length
/// of `s` where there is none.
pub open spec fn next_delimiter(s: Seq<char>, from: int) -> int
    decreases s.len() - from,
{
    if from + 3 > s.len() {
        s.len() as int
    } else if delimiter_at(s, from) {
        from
    } else {
        next_delimiter(s, from + 1)
    }
}

/// The pieces of `s` between its delimiters, in order. A delimiter is taken
/// where it first occurs, and the search goes on behind it, so two
/// delimiters never share a character. Text without a delimiter is one piece.
pub open spec fn split(s: Seq<char>) -> Seq<Seq<char>>
    decreases s.len(),
{
    let d = next_delimiter(s, 0);
    if 0 <= d && d + 3 <= s.len() {
        seq![s.take(d)] + split(s.skip(d + 3))
    } else {
        seq![s]
    }
}

/// The quote records of `s`: its pieces, each trimmed, without those that
/// trimming leaves empty.
pub open spec fn records(s: Seq<char>) -> Seq<Seq<char>> {
    split(s).map_values(|p: Seq<char>| trim(p)).filter(|r: Seq<char>| r.len() > 0)
}

/// The pieces put together again, with the delimiter between each two.
pub open spec fn joined(pieces: Seq<Seq<char>>) -> Seq<char>
    decreases pieces.len(),
{
    if pieces.len() == 0 {
        Seq::empty()
    } else if pieces.len() == 1 {
        pieces.first()
    } else {
        pieces.first() + delimiter() + joined(pieces.drop_first())
    }
}

/// `pattern` stands in `s` at index `i`.
pub open spec fn occurs_at(pattern: Seq<char>, s: Seq<char>, i: int) -> bool {
    &&& 0 <= i
    &&& i + pattern.len() <= s.len()
    &&& s.subrange(i, i + pattern.len()) == pattern
}

/// `pattern` is a substring of `s`. The empty pattern is a substring of every
/// text.
pub open spec fn occurs_in(pattern: Seq<char>, s: Seq<char>) -> bool {
    exists|i: int| occurs_at(pattern, s, i)
}

/// The contents of each vector of `v`.
pub open spec fn views(v: Seq<Vec<char>>) -> Seq<Seq<char>> {
    v.map_values(|r: Vec<char>| r@)
}

/// The contents of each string of `v`.
pub open spec fn texts(v: Seq<String>) -> Seq<Seq<char>> {
    v.map_values(|r: String| r@)
}

/// The delimiter stands where its three characters occur.
pub proof fn lemma_delimiter_at(s: Seq<char>, i: int)
    ensures
        delimiter_at(s, i) <==> occurs_at(delimiter(), s, i),
{
    if delimiter_at(s, i) {
        assert(s.subrange(i, i + 3) =~= delimiter());
    }
    if occurs_at(delimiter(), s, i) {
        let found = s.subrange(i, i + 3);
        assert(found[0] == '\n' && found[1] == '%' && found[2] == '\n');
    }
}

/// Where `next_delimiter` points: at the first delimiter from `from` on, or
/// at the end of `s` where none is left.
pub proof fn lemma_next_delimiter(s: Seq<char>, from: int)
    requires
        0 <= from <= s.len(),
    ensures
        from <= next_delimiter(s, from) <= s.len(),
        next_delimiter(s, from) + 3 <= s.len() ==> delimiter_at(s, next_delimiter(s, from)),
        next_delimiter(s, from) + 3 > s.len() ==> next_delimiter(s, from) == s.len(),
        forall|j: int| from <= j < next_delimiter(s, from) ==> !delimiter_at(s, j),
    decreases s.len() - from,
{
    if from + 3 <= s.len() && !delimiter_at(s, from) {
        lemma_next_delimiter(s, from + 1);
    }
}

/// The first delimiter of a suffix is the first delimiter of the whole text
/// behind the place where the suffix starts.
proof fn lemma_next_delimiter_skip(s: Seq<char>, start: int, from: int)
    requires
        0 <= start <= s.len(),
        0 <= from,
    ensures
        next_delimiter(s.skip(start), from) + start == next_delimiter(s, start + from),
    decreases s.len() - start - from,
{
    let t = s.skip(start);
    if from + 3 <= t.len() {
        assert(delimiter_at(t, from) == delimiter_at(s, start + from));
        if !delimiter_at(t, from) {
            lemma_next_delimiter_skip(s, start, from + 1);
        }
    }
}

/// The records of the suffix of `s` from `start` on: the record of its first
/// piece, which ends at the next delimiter, then those behind that delimiter.
proof fn lemma_records_skip(s: Seq<char>, start: int)
    requires
        0 <= start <= s.len(),
    ensures
        ({
            let d = next_delimiter(s, start);
            let piece = trim(s.subrange(start, d));
            let head = if piece.len() > 0 {
                seq![piece]
            } else {
                Seq::<Seq<char>>::empty()
            };
            records(s.skip(start)) == if d + 3 <= s.len() {
                head + records(s.skip(d + 3))
            } else {
                head
            }
        }),
{
    let t = s.skip(start);
    let d = next_delimiter(s, start);
    let trimmed = |p: Seq<char>| trim(p);
    let kept = |r: Seq<char>| r.len() > 0;
    lemma_next_delimiter(s, start);
    lemma_next_delimiter_skip(s, start, 0);
    assert(next_delimiter(t, 0) == d - start);
    assert(t.take(d - start) =~= s.subrange(start, d));
    let first = seq![s.subrange(start, d)];
    assert(first.map_values(trimmed) =~= seq![trim(s.subrange(start, d))]);
    assert(first.map_values(trimmed).filter(kept) == if trim(s.subrange(start, d)).len() > 0 {
        seq![trim(s.subrange(start, d))]
    } else {
        Seq::<Seq<char>>::empty()
    }) by {
        reveal_with_fuel(Seq::filter, 2);
        let one = first.map_values(trimmed);
        assert(one.drop_last().len() == 0);
        if kept(one.last()) {
            assert(one.filter(kept) =~= seq![trim(s.subrange(start, d))]);
        } else {
            assert(one.filter(kept) =~= Seq::<Seq<char>>::empty());
        }
    }
    if d + 3 <= s.len() {
        assert(t.skip(d - start + 3) =~= s.skip(d + 3));
        let rest = split(s.skip(d + 3));
        assert(split(t) == first + rest);
        assert((first + rest).map_values(trimmed) =~= first.map_values(trimmed) + rest.map_values(
            trimmed,
        ));
        Seq::filter_distributes_over_add(
            first.map_values(trimmed),
            rest.map_values(trimmed),
            kept,
        );
    } else {
        assert(t =~= s.subrange(start, d));
        assert(split(t) == first);
    }
}

/// Splitting loses nothing: there is at least one piece, no piece holds a
/// delimiter, and the pieces with the delimiter between them are the text.
pub proof fn lemma_split(s: Seq<char>)
    ensures
        split(s).len() >= 1,
        joined(split(s)) == s,
        forall|k: int, i: int| 0 <= k < split(s).len() ==> !#[trigger] delimiter_at(split(s)[k], i),
    decreases s.len(),
{
    let d = next_delimiter(s, 0);
    lemma_next_delimiter(s, 0);
    if d + 3 <= s.len() {
        let head = s.take(d);
        let tail = s.skip(d + 3);
        let rest = split(tail);
        lemma_split(tail);
        assert(split(s) == seq![head] + rest);
        assert(split(s).drop_first() =~= rest);
        assert(s.subrange(d, d + 3) =~= delimiter());
        assert(s =~= head + s.subrange(d, d + 3) + tail);
        assert forall|k: int, i: int| 0 <= k < split(s).len() implies !#[trigger] delimiter_at(
            split(s)[k],
            i,
        ) by {
            if k == 0 {
                if delimiter_at(head, i) {
                    assert(delimiter_at(s, i));
                }
            } else {
                assert(split(s)[k] == rest[k - 1]);
            }
        }
    } else {
        assert(split(s) == seq![s]);
    }
}

/// No record is empty, and none starts or ends with white space.
pub proof fn lemma_records_are_trimmed(s: Seq<char>)
    ensures
        forall|i: int|
            0 <= i < records(s).len() ==> (#[trigger] records(s)[i]).len() > 0 && is_trimmed(
                records(s)[i],
            ),
{
    let trimmed = |p: Seq<char>| trim(p);
    let kept = |r: Seq<char>| r.len() > 0;
    let all = split(s).map_values(trimmed);
    assert forall|i: int| 0 <= i < records(s).len() implies (#[trigger] records(s)[i]).len() > 0
        && is_trimmed(records(s)[i]) by {
        let r = records(s)[i];
        all.lemma_filter_pred(kept, i);
        assert(all.filter(kept).contains(r));
        all.lemma_filter_contains_rev(kept, r);
        let j = choose|j: int| 0 <= j < all.len() && all[j] == r;
        lemma_trim(split(s)[j]);
    }
}

/// Text without a delimiter is one record, the text trimmed, or none where
/// the text is blank.
pub proof fn lemma_records_without_delimiter(s: Seq<char>)
    requires
        forall|i: int| !delimiter_at(s, i),
    ensures
        records(s) == if is_blank(s) {
            Seq::<Seq<char>>::empty()
        } else {
            seq![trim(s)]
        },
{
    lemma_next_delimiter(s, 0);
    lemma_records_skip(s, 0);
    lemma_trim_of_blank(s);
    assert(s.skip(0) =~= s);
    assert(s.subrange(0, s.len() as int) =~= s);
}

/// Blank text has no record.
pub proof fn lemma_records_of_blank(s: Seq<char>)
    requires
        is_blank(s),
    ensures
        records(s).len() == 0,
{
    assert forall|i: int| !delimiter_at(s, i) by {
        if delimiter_at(s, i) {
            assert(is_whitespace(s[i + 1]));
        }
    }
    lemma_records_without_delimiter(s);
}

/// Trimming leaves nothing of blank text, and something of any other.
pub proof fn lemma_trim_of_blank(s: Seq<char>)
    ensures
        is_blank(s) <==> trim(s).len() == 0,
{
    lemma_trim(s);
    let (a, b) = choose|a: int, b: int|
        0 <= a <= b <= s.len() && #[trigger] s.subrange(a, b) == trim(s) && is_blank(s.take(a))
            && is_blank(s.skip(b));
    if is_blank(s) {
        if trim(s).len() > 0 {
            assert(trim(s).first() == s[a]);
        }
    }
    if trim(s).len() == 0 {
        assert forall|i: int| 0 <= i < s.len() implies is_whitespace(#[trigger] s[i]) by {
            if i < a {
                assert(s[i] == s.take(a)[i]);
            } else {
                assert(s[i] == s.skip(b)[i - b]);
            }
        }
    }
}

/// Trimming takes nothing but white space away, and leaves none at either
/// end: `trim(s)` is the part of `s` from its first to its last character
/// that is not white space.
pub proof fn lemma_trim(s: Seq<char>)
    ensures
        is_trimmed(trim(s)),
        exists|a: int, b: int|
            0 <= a <= b <= s.len() && #[trigger] s.subrange(a, b) == trim(s) && is_blank(
                s.take(a),
            ) && is_blank(s.skip(b)),
{
    lemma_trim_start(s);
    let a = s.len() - trim_start(s).len();
    lemma_trim_end(s.skip(a));
    let b = a + trim(s).len();
    assert(s.subrange(a, b) =~= s.skip(a).take(b - a));
    assert forall|i: int| 0 <= i < s.skip(b).len() implies is_whitespace(
        #[trigger] s.skip(b)[i],
    ) by {
        assert(s.skip(b)[i] == s.skip(a).skip(b - a)[i]);
    }
    if trim(s).len() > 0 {
        assert(trim(s).first() == trim_start(s).first());
    }
}

/// `trim_start` takes a blank prefix away, and what is left does not start
/// with white space.
proof fn lemma_trim_start(s: Seq<char>)
    ensures
        trim_start(s).len() <= s.len(),
        trim_start(s) == s.skip(s.len() - trim_start(s).len()),
        is_blank(s.take(s.len() - trim_start(s).len())),
        trim_start(s).len() > 0 ==> !is_whitespace(trim_start(s).first()),
    decreases s.len(),
{
    if s.len() > 0 && is_whitespace(s.first()) {
        let t = s.drop_first();
        lemma_trim_start(t);
        let k = t.len() - trim_start(t).len();
        assert(t.skip(k) =~= s.skip(k + 1));
        assert forall|i: int| 0 <= i < k + 1 implies is_whitespace(#[trigger] s.take(k + 1)[i]) by {
            if i > 0 {
                assert(s.take(k + 1)[i] == t.take(k)[i - 1]);
            }
        }
    } else {
        assert(s.skip(0) =~= s);
    }
}

/// `trim_end` takes a blank suffix away, and what is left does not end with
/// white space.
proof fn lemma_trim_end(s: Seq<char>)
    ensures
        trim_end(s).len() <= s.len(),
        trim_end(s) == s.take(trim_end(s).len() as int),
        is_blank(s.skip(trim_end(s).len() as int)),
        trim_end(s).len() > 0 ==> !is_whitespace(trim_end(s).last()),
    decreases s.len(),
{
    if s.len() > 0 && is_whitespace(s.last()) {
        let t = s.drop_last();
        lemma_trim_end(t);
        let k = trim_end(t).len() as int;
        assert(t.take(k) =~= s.take(k));
        assert forall|i: int| 0 <= i < s.len() - k implies is_whitespace(#[trigger] s.skip(k)[i]) by {
            if i < t.len() - k {
                assert(s.skip(k)[i] == t.skip(k)[i]);
            }
        }
    } else {
        assert(s.take(s.len() as int) =~= s);
    }
}

/// Whether `c` is white space.
pub fn whitespace(c: char) -> (b: bool)
    ensures
        b == is_whitespace(c),
{
    let u: u32 = c as u32;
    (0x09 <= u && u <= 0x0D) || u == 0x20 || u == 0x85 || u == 0xA0 || u == 0x1680 || (0x2000 <= u
        && u <= 0x200A) || u == 0x2028 || u == 0x2029 || u == 0x202F || u == 0x205F || u == 0x3000
}

/// The bounds of what trimming leaves of `chars[from..to]`: of its first and
/// behind its last character that is not white space, or twice `to` where
/// all of it is blank.
pub fn trim_range(chars: &Vec<char>, from: usize, to: usize) -> (span: (usize, usize))
    requires
        from <= to <= chars.len(),
    ensures
        from <= span.0 <= span.1 <= to,
        chars@.subrange(span.0 as int, span.1 as int) == trim(
            chars@.subrange(from as int, to as int),
        ),
        is_blank(chars@.subrange(from as int, span.0 as int)),
        is_blank(chars@.subrange(span.1 as int, to as int)),
        span.0 < span.1 ==> !is_whitespace(chars@[span.0 as int]) && !is_whitespace(
            chars@[span.1 - 1],
        ),
        span.0 == span.1 ==> span.1 == to,
{
    let mut a: usize = from;
    while a < to && whitespace(chars[a])
        invariant
            from <= a <= to <= chars.len(),
            trim_start(chars@.subrange(from as int, to as int)) == trim_start(
                chars@.subrange(a as int, to as int),
            ),
            is_blank(chars@.subrange(from as int, a as int)),
        decreases to - a,
    {
        assert(chars@.subrange(a as int, to as int).drop_first() =~= chars@.subrange(
            a + 1,
            to as int,
        ));
        a += 1;
    }
    let mut b: usize = to;
    while b > a && whitespace(chars[b - 1])
        invariant
            a <= b <= to <= chars.len(),
            trim_end(chars@.subrange(a as int, to as int)) == trim_end(
                chars@.subrange(a as int, b as int),
            ),
            is_blank(chars@.subrange(b as int, to as int)),
        decreases b - a,
    {
        assert(chars@.subrange(a as int, b as int).drop_last() =~= chars@.subrange(
            a as int,
            b - 1,
        ));
        proof {
            let blank = chars@.subrange(b as int, to as int);
            let wider = chars@.subrange(b - 1, to as int);
            assert forall|i: int| 0 <= i < wider.len() implies is_whitespace(
                #[trigger] wider[i],
            ) by {
                if i > 0 {
                    assert(wider[i] == blank[i - 1]);
                }
            }
        }
        b -= 1;
    }
    proof {
        if a == b && a < to {
            assert(chars@.subrange(b as int, to as int)[0] == chars@[a as int]);
        }
    }
    (a, b)
}

/// A copy of `chars[from..to]`.
pub fn copy_range(chars: &Vec<char>, from: usize, to: usize) -> (out: Vec<char>)
    requires
        from <= to <= chars.len(),
    ensures
        out@ == chars@.subrange(from as int, to as int),
{
    let mut out: Vec<char> = Vec::new();
    let mut i: usize = from;
    while i < to
        invariant
            from <= i <= to <= chars.len(),
            out@ == chars@.subrange(from as int, i as int),
        decreases to - i,
    {
        out.push(chars[i]);
        i += 1;
    }
    out
}

/// Whether the delimiter stands in `chars` at index `i`.
pub fn is_delimiter_at(chars: &Vec<char>, i: usize) -> (b: bool)
    ensures
        b == delimiter_at(chars@, i as int),
{
    chars.len() >= 3 && i <= chars.len() - 3 && chars[i] == '\n' && chars[i + 1] == '%' && chars[i
        + 2] == '\n'
}

/// Splits `chars` at the delimiter into its quote records, in the order in
/// which they stand in `chars`.
pub fn parse_records(chars: &Vec<char>) -> (out: Vec<Vec<char>>)
    ensures
        views(out@) == records(chars@),
{
    let ghost s = chars@;
    let n = chars.len();
    let mut out: Vec<Vec<char>> = Vec::new();
    let mut start: usize = 0;
    let mut i: usize = 0;
    proof {
        assert(s.skip(0) =~= s);
        assert(views(out@) =~= Seq::<Seq<char>>::empty());
    }
    while n >= 3 && i <= n - 3
        invariant
            s == chars@,
            n == chars.len(),
            start <= i <= n,
            next_delimiter(s, start as int) == next_delimiter(s, i as int),
            views(out@) + records(s.skip(start as int)) == records(s),
        decreases n - i,
    {
        if is_delimiter_at(chars, i) {
            proof {
                lemma_records_skip(s, start as int);
            }
            let (a, b) = trim_range(chars, start, i);
            if a < b {
                let ghost before = out@;
                out.push(copy_range(chars, a, b));
                assert(views(out@) =~= views(before) + seq![trim(s.subrange(start as int, i as int))]);
            }
            start = i + 3;
            i = start;
        } else {
            i += 1;
        }
    }
    proof {
        lemma_records_skip(s, start as int);
    }
    let (a, b) = trim_range(chars, start, n);
    if a < b {
        let ghost before = out@;
        out.push(copy_range(chars, a, b));
        assert(views(out@) =~= views(before) + seq![trim(s.subrange(start as int, n as int))]);
    }
    out
}

/// Whether `pattern` stands in `chars` at index `i`.
pub fn matches_at(chars: &Vec<char>, pattern: &Vec<char>, i: usize) -> (b: bool)
    ensures
        b == occurs_at(pattern@, chars@, i as int),
{
    let m = pattern.len();
    if chars.len() < m || i > chars.len() - m {
        return false;
    }
    let mut k: usize = 0;
    while k < m
        invariant
            m == pattern.len(),
            i + m <= chars.len(),
            k <= m,
            forall|j: int| 0 <= j < k ==> chars@[i + j] == pattern@[j],
        decreases m - k,
    {
        if chars[i + k] != pattern[k] {
            assert(chars@.subrange(i as int, i + m)[k as int] != pattern@[k as int]);
            return false;
        }
        k += 1;
    }
    assert(chars@.subrange(i as int, i + m) =~= pattern@);
    true
}

/// Whether `pattern` is a substring of `chars`.
pub fn contains(chars: &Vec<char>, pattern: &Vec<char>) -> (b: bool)
    ensures
        b == occurs_in(pattern@, chars@),
{
    let m = pattern.len();
    if chars.len() < m {
        return false;
    }
    let last = chars.len() - m;
    let mut i: usize = 0;
    while i < last
        invariant
            last == chars.len() - pattern.len(),
            i <= last,
            forall|j: int| 0 <= j < i ==> !occurs_at(pattern@, chars@, j),
        decreases last - i,
    {
        if matches_at(chars, pattern, i) {
            return true;
        }
        i += 1;
    }
    matches_at(chars, pattern, last)
}

/// The characters of `text`.
pub fn to_chars(text: &str) -> (chars: Vec<char>)
    ensures
        chars@ == text@,
{
    let mut chars: Vec<char> = Vec::new();
    for c in it: text.chars()
        invariant
            chars@ == it.seq().take(it.index()),
    {
        chars.push(c);
    }
    chars
}

/// `String::push` of std: appends one character to the string.
pub assume_specification[ String::push ](s: &mut String, c: char)
    ensures
        final(s)@ == old(s)@.push(c),
;

/// Appends `chars` to `text`.
pub fn push_chars(text: &mut String, chars: &Vec<char>)
    ensures
        final(text)@ == old(text)@ + chars@,
{
    let mut i: usize = 0;
    while i < chars.len()
        invariant
            i <= chars.len(),
            text@ == old(text)@ + chars@.take(i as int),
        decreases chars.len() - i,
    {
        text.push(chars[i]);
        i += 1;
    }
}

/// The string that holds `chars`.
pub fn to_string(chars: &Vec<char>) -> (text: String)
    ensures
        text@ == chars@,
{
    let mut text = String::new();
    push_chars(&mut text, chars);
    text
}

} // verus!
