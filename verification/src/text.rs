//! Reading text: white space, words, prefixes and octal numbers.
//!
//! A `str` is modelled by its view, the sequence of its characters.
use vstd::prelude::*;
use vstd::string::StrSliceExecFns;

verus! {

/// The characters with the Unicode property `White_Space`.
pub open spec fn is_white_space(c: char) -> bool {
    let n = c as u32;
    ||| 0x09 <= n <= 0x0d
    ||| n == 0x20
    ||| n == 0x85
    ||| n == 0xa0
    ||| n == 0x1680
    ||| 0x2000 <= n <= 0x200a
    ||| n == 0x2028
    ||| n == 0x2029
    ||| n == 0x202f
    ||| n == 0x205f
    ||| n == 0x3000
}

/// `char::is_whitespace` of the standard library tells whether a character has the Unicode
/// property `White_Space`. The contract lists the characters that have it.
pub assume_specification[ char::is_whitespace ](c: char) -> (r: bool)
    ensures
        r == is_white_space(c),
;

/// `s` without its leading white space.
pub open spec fn trim_start(s: Seq<char>) -> Seq<char>
    decreases s.len(),
{
    if s.len() > 0 && is_white_space(s[0]) {
        trim_start(s.drop_first())
    } else {
        s
    }
}

/// `s` without its trailing white space.
pub open spec fn trim_end(s: Seq<char>) -> Seq<char>
    decreases s.len(),
{
    if s.len() > 0 && is_white_space(s.last()) {
        trim_end(s.drop_last())
    } else {
        s
    }
}

/// `s` without the white space around it.
pub open spec fn trimmed(s: Seq<char>) -> Seq<char> {
    trim_end(trim_start(s))
}

/// The maximal runs of characters that are not white space, in order.
pub open spec fn words(s: Seq<char>) -> Seq<Seq<char>>
    decreases s.len(),
{
    if s.len() == 0 {
        Seq::empty()
    } else {
        let before = words(s.drop_last());
        let c = s.last();
        if is_white_space(c) {
            before
        } else if s.len() == 1 || is_white_space(s[s.len() - 2]) {
            before.push(seq![c])
        } else {
            before.drop_last().push(before.last().push(c))
        }
    }
}

/// The views of a vector of strings.
pub open spec fn views(v: Seq<String>) -> Seq<Seq<char>> {
    Seq::new(v.len(), |i: int| v[i]@)
}

/// The view of a string, where there is one.
pub open spec fn view_of(s: Option<String>) -> Option<Seq<char>> {
    match s {
        Some(s) => Some(s@),
        None => None,
    }
}

/// The characters of `s`.
pub fn chars_of(s: &str) -> (r: Vec<char>)
    ensures
        r@ == s@,
{
    let mut out: Vec<char> = Vec::new();
    for c in it: s.chars()
        invariant
            it.seq() == s@,
            out@ == s@.take(it.index() as int),
    {
        out.push(c);
    }
    out
}

/// Whether two texts are equal.
pub fn same(a: &str, b: &str) -> (r: bool)
    ensures
        r == (a@ == b@),
{
    let x = a.as_bytes();
    let y = b.as_bytes();
    proof {
        vstd::utf8::encode_utf8_decode_utf8(a@);
        vstd::utf8::encode_utf8_decode_utf8(b@);
    }
    if x.len() != y.len() {
        return false;
    }
    let mut i: usize = 0;
    while i < x.len()
        invariant
            x@ == vstd::utf8::encode_utf8(a@),
            y@ == vstd::utf8::encode_utf8(b@),
            x@.len() == y@.len(),
            i <= x@.len(),
            forall|j: int| 0 <= j < i ==> x@[j] == y@[j],
        decreases x@.len() - i,
    {
        if x[i] != y[i] {
            return false;
        }
        i += 1;
    }
    assert(x@ =~= y@);
    true
}

/// Whether `s` begins with `prefix`.
pub fn begins_with(s: &str, prefix: &str) -> (r: bool)
    ensures
        r == prefix@.is_prefix_of(s@),
{
    let x = chars_of(s);
    let y = chars_of(prefix);
    if y.len() > x.len() {
        return false;
    }
    let mut i: usize = 0;
    while i < y.len()
        invariant
            x@ == s@,
            y@ == prefix@,
            i <= y@.len() <= x@.len(),
            forall|j: int| 0 <= j < i ==> x@[j] == y@[j],
        decreases y@.len() - i,
    {
        if x[i] != y[i] {
            return false;
        }
        i += 1;
    }
    assert(prefix@ =~= s@.subrange(0, prefix@.len() as int));
    true
}

/// `s` without the white space around it.
pub fn trim(s: &str) -> (r: &str)
    ensures
        r@ == trimmed(s@),
{
    let cs = chars_of(s);
    let mut from: usize = 0;
    assert(s@.skip(0) =~= s@);
    while from < cs.len() && cs[from].is_whitespace()
        invariant
            cs@ == s@,
            from <= cs@.len(),
            trim_start(s@) == trim_start(s@.skip(from as int)),
        decreases cs@.len() - from,
    {
        assert(s@.skip(from as int).drop_first() =~= s@.skip(from + 1));
        from += 1;
    }
    assert(trim_start(s@) == s@.skip(from as int));
    let mut to: usize = cs.len();
    assert(s@.subrange(from as int, to as int) =~= s@.skip(from as int));
    while to > from && cs[to - 1].is_whitespace()
        invariant
            cs@ == s@,
            from <= to <= cs@.len(),
            trimmed(s@) == trim_end(s@.subrange(from as int, to as int)),
        decreases to,
    {
        assert(s@.subrange(from as int, to as int).drop_last() =~= s@.subrange(
            from as int,
            to - 1,
        ));
        to -= 1;
    }
    s.substring_char(from, to)
}

/// The words of `s`: its maximal runs of characters that are not white space.
pub fn split_words(s: &str) -> (r: Vec<String>)
    ensures
        views(r@) == words(s@),
{
    let cs = chars_of(s);
    let mut out: Vec<String> = Vec::new();
    let mut start: usize = 0;
    let mut i: usize = 0;
    while i < cs.len()
        invariant
            cs@ == s@,
            start <= i <= cs@.len(),
            start < i ==> !is_white_space(s@[i - 1]),
            start == i ==> (i == 0 || is_white_space(s@[i - 1])),
            words(s@.take(i as int)) == if start < i {
                views(out@).push(s@.subrange(start as int, i as int))
            } else {
                views(out@)
            },
        decreases cs@.len() - i,
    {
        let c = cs[i];
        let ghost t = s@.take(i + 1);
        assert(t.drop_last() =~= s@.take(i as int));
        if c.is_whitespace() {
            if start < i {
                let ghost before = out@;
                let w = s.substring_char(start, i).to_owned();
                out.push(w);
                assert(views(out@) =~= views(before).push(w@));
            }
            start = i + 1;
        } else {
            assert(start < i ==> s@.subrange(start as int, i as int).push(c) =~= s@.subrange(
                start as int,
                i + 1,
            ));
            assert(start == i ==> seq![c] =~= s@.subrange(start as int, i + 1));
            assert(start < i ==> words(t.drop_last()).drop_last() =~= views(out@));
        }
        i += 1;
    }
    assert(s@.take(i as int) =~= s@);
    if start < i {
        let ghost before = out@;
        let w = s.substring_char(start, i).to_owned();
        out.push(w);
        assert(views(out@) =~= views(before).push(w@));
    }
    out
}

/// `s` without its white space.
pub open spec fn without_white_space(s: Seq<char>) -> Seq<char>
    decreases s.len(),
{
    if s.len() == 0 {
        s
    } else if is_white_space(s.last()) {
        without_white_space(s.drop_last())
    } else {
        without_white_space(s.drop_last()).push(s.last())
    }
}

/// No word is empty or holds white space, and together the words are the text without its
/// white space: nothing else is lost or moved.
pub proof fn law_words(s: Seq<char>)
    ensures
        words(s).flatten() == without_white_space(s),
        forall|i: int| 0 <= i < words(s).len() ==> (#[trigger] words(s)[i]).len() > 0,
        forall|i: int, j: int|
            0 <= i < words(s).len() && 0 <= j < words(s)[i].len() ==> !is_white_space(
                #[trigger] words(s)[i][j],
            ),
        s.len() > 0 && !is_white_space(s.last()) ==> words(s).len() > 0,
    decreases s.len(),
{
    if s.len() == 0 {
        assert(words(s).flatten() =~= without_white_space(s));
    } else {
        let rest = s.drop_last();
        let before = words(rest);
        let c = s.last();
        law_words(rest);
        if !is_white_space(c) {
            if s.len() == 1 || is_white_space(s[s.len() - 2]) {
                before.lemma_flatten_push(seq![c]);
                assert(words(s).flatten() =~= without_white_space(s));
            } else {
                assert(rest.last() == s[s.len() - 2]);
                let w = before.last();
                assert(before =~= before.drop_last().push(w));
                before.drop_last().lemma_flatten_push(w);
                before.drop_last().lemma_flatten_push(w.push(c));
                assert(words(s).flatten() =~= without_white_space(s));
                assert forall|i: int, j: int|
                    0 <= i < words(s).len() && 0 <= j < words(s)[i].len() implies !is_white_space(
                    #[trigger] words(s)[i][j],
                ) by {
                    if i < before.len() - 1 {
                        assert(words(s)[i] == before[i]);
                    } else {
                        assert(words(s)[i] == w.push(c));
                        if j < w.len() {
                            assert(before[i][j] == w[j]);
                        }
                    }
                }
            }
        }
    }
}

/// The text that `String::from_utf8_lossy` makes of bytes.
pub uninterp spec fn utf8_lossy(bytes: Seq<u8>) -> Seq<char>;

/// `String::from_utf8_lossy` of the standard library, as an owned string. It decodes valid
/// UTF-8, and puts replacement characters in place of what is not valid; where those stand is
/// left to its name.
#[verifier::external_body]
pub(crate) fn decode_lossy(bytes: &Vec<u8>) -> (r: String)
    ensures
        r@ == utf8_lossy(bytes@),
        vstd::utf8::valid_utf8(bytes@) ==> r@ == vstd::utf8::decode_utf8(bytes@),
{
    String::from_utf8_lossy(bytes).into_owned()
}

/// The errors of `String::from_utf8`, opaque here.
#[verifier::external_type_specification]
#[verifier::external_body]
pub struct ExFromUtf8Error(std::string::FromUtf8Error);

/// `String::from_utf8` of the standard library: it decodes valid UTF-8 and refuses the rest. What
/// its error says of where the bytes go wrong is left unsaid.
#[verifier::external_body]
pub(crate) fn decode(bytes: Vec<u8>) -> (r: Result<String, std::string::FromUtf8Error>)
    ensures
        match r {
            Ok(s) => vstd::utf8::valid_utf8(bytes@) && s@ == vstd::utf8::decode_utf8(bytes@),
            Err(_) => !vstd::utf8::valid_utf8(bytes@),
        },
{
    String::from_utf8(bytes)
}

/// `s` without the leading repetitions of `0o`.
pub open spec fn without_octal_mark(s: Seq<char>) -> Seq<char>
    decreases s.len(),
{
    if s.len() >= 2 && s[0] == '0' && s[1] == 'o' {
        without_octal_mark(s.skip(2))
    } else {
        s
    }
}

/// Whether `s` is a non-empty run of octal digits.
pub open spec fn octal_digits(s: Seq<char>) -> bool {
    &&& s.len() > 0
    &&& forall|i: int| 0 <= i < s.len() ==> '0' <= #[trigger] s[i] <= '7'
}

/// The number that a run of octal digits stands for.
pub open spec fn octal_value(s: Seq<char>) -> int
    decreases s.len(),
{
    if s.len() == 0 {
        0
    } else {
        octal_value(s.drop_last()) * 8 + (s.last() as int - '0' as int)
    }
}

/// The 32-bit number that `s` writes in octal, after one optional `+`.
pub open spec fn octal_number(s: Seq<char>) -> Option<int> {
    let digits = if s.len() > 0 && s[0] == '+' {
        s.drop_first()
    } else {
        s
    };
    if octal_digits(digits) && octal_value(digits) <= u32::MAX {
        Some(octal_value(digits))
    } else {
        None
    }
}

/// More digits never make an octal number smaller.
proof fn lemma_octal_value_grows(s: Seq<char>, n: int)
    requires
        octal_digits(s),
        0 <= n <= s.len(),
    ensures
        0 <= octal_value(s.take(n)) <= octal_value(s),
    decreases s.len(),
{
    if n == s.len() {
        assert(s.take(n) =~= s);
        if s.len() > 1 {
            assert(forall|i: int| 0 <= i < s.len() - 1 ==> s.drop_last()[i] == s[i]);
            lemma_octal_value_grows(s.drop_last(), n - 1);
            assert(s.drop_last().take(n - 1) =~= s.drop_last());
        } else {
            assert(octal_value(s.drop_last()) == 0);
        }
    } else if s.len() > 1 {
        assert(forall|i: int| 0 <= i < s.len() - 1 ==> s.drop_last()[i] == s[i]);
        lemma_octal_value_grows(s.drop_last(), n);
        assert(s.drop_last().take(n) =~= s.take(n));
    } else {
        assert(octal_value(s.drop_last()) == 0);
        assert(octal_value(s.take(n)) == 0);
    }
}

/// Only zeros and the letter `o` are removed with octal marks: any other character stays.
pub proof fn lemma_octal_mark_keeps(s: Seq<char>, i: int)
    requires
        0 <= i < s.len(),
        s[i] != '0',
        s[i] != 'o',
    ensures
        exists|j: int|
            0 <= j < without_octal_mark(s).len() && #[trigger] without_octal_mark(s)[j] == s[i],
    decreases s.len(),
{
    if s.len() >= 2 && s[0] == '0' && s[1] == 'o' {
        assert(s.skip(2)[i - 2] == s[i]);
        lemma_octal_mark_keeps(s.skip(2), i - 2);
        let bare = without_octal_mark(s.skip(2));
        assert(without_octal_mark(s) == bare);
        let j = choose|j: int| 0 <= j < bare.len() && #[trigger] bare[j] == s[i];
        assert(without_octal_mark(s)[j] == s[i]);
    } else {
        assert(without_octal_mark(s) == s);
        assert(without_octal_mark(s)[i] == s[i]);
    }
}

/// A leading zero does not change what digits stand for.
pub proof fn lemma_leading_zero(s: Seq<char>)
    ensures
        octal_value(seq!['0'] + s) == octal_value(s),
    decreases s.len(),
{
    let longer = seq!['0'] + s;
    if s.len() == 0 {
        assert(longer.drop_last() =~= s);
        assert(longer.last() == '0');
    } else {
        lemma_leading_zero(s.drop_last());
        assert(longer.drop_last() =~= seq!['0'] + s.drop_last());
        assert(longer.last() == s.last());
    }
}

/// Reads an octal number, as `u32::from_str_radix` does for the radix 8, from `s` without
/// its leading repetitions of `0o`.
pub fn parse_octal(s: &str) -> (r: Option<u32>)
    ensures
        match octal_number(without_octal_mark(s@)) {
            Some(n) => r matches Some(v) && v == n,
            None => r is None,
        },
{
    let cs = chars_of(s);
    let mut from: usize = 0;
    assert(s@.skip(0) =~= s@);
    while cs.len() - from >= 2 && cs[from] == '0' && cs[from + 1] == 'o'
        invariant
            cs@ == s@,
            from <= cs@.len(),
            without_octal_mark(s@) == without_octal_mark(s@.skip(from as int)),
        decreases cs@.len() - from,
    {
        assert(s@.skip(from as int).skip(2) =~= s@.skip(from + 2));
        from += 2;
    }
    let ghost bare = s@.skip(from as int);
    assert(without_octal_mark(s@) == bare);
    if from < cs.len() && cs[from] == '+' {
        assert(bare.drop_first() =~= s@.skip(from + 1));
        from += 1;
    }
    let ghost digits = s@.skip(from as int);
    if from == cs.len() {
        return None;
    }
    let mut value: u32 = 0;
    let mut i: usize = from;
    while i < cs.len()
        invariant
            cs@ == s@,
            from <= i <= cs@.len(),
            digits == s@.skip(from as int),
            forall|j: int| 0 <= j < i - from ==> '0' <= #[trigger] digits[j] <= '7',
            value == octal_value(digits.take(i - from)),
            octal_number(without_octal_mark(s@)) == (if octal_digits(digits) && octal_value(digits)
                <= u32::MAX {
                Some(octal_value(digits))
            } else {
                None
            }),
        decreases cs@.len() - i,
    {
        let c = cs[i];
        assert(c == digits[i - from]);
        if c < '0' || c > '7' {
            return None;
        }
        let digit: u32 = c as u32 - '0' as u32;
        assert(digits.take(i - from + 1).drop_last() =~= digits.take(i - from));
        proof {
            if octal_digits(digits) {
                lemma_octal_value_grows(digits, i - from + 1);
            }
        }
        if value > (u32::MAX - digit) / 8 {
            return None;
        }
        value = value * 8 + digit;
        i += 1;
    }
    assert(digits.take(i - from) =~= digits);
    Some(value)
}

/// Trimming cuts white space off both ends, and nothing else: the text between the returned
/// positions is left, everything around it is white space, and neither end of it is.
pub proof fn law_trimming_cuts_white_space_off_the_ends(s: Seq<char>) -> (r: (int, int))
    ensures
        0 <= r.0 <= r.1 <= s.len(),
        trimmed(s) == s.subrange(r.0, r.1),
        forall|i: int| 0 <= i < s.len() && !(r.0 <= i < r.1) ==> is_white_space(#[trigger] s[i]),
        r.0 < r.1 ==> !is_white_space(s[r.0]) && !is_white_space(s[r.1 - 1]),
{
    let from = lemma_trim_start(s);
    let rest = s.skip(from);
    let len = lemma_trim_end(rest);
    assert(rest.take(len) =~= s.subrange(from, from + len));
    assert forall|i: int| 0 <= i < s.len() && !(from <= i < from + len) implies is_white_space(
        #[trigger] s[i],
    ) by {
        if i >= from {
            assert(rest[i - from] == s[i]);
        }
    }
    if len > 0 {
        assert(rest[0] == s[from]);
        assert(rest[len - 1] == s[from + len - 1]);
    }
    (from, from + len)
}

/// Where the text without its leading white space begins.
proof fn lemma_trim_start(s: Seq<char>) -> (from: int)
    ensures
        0 <= from <= s.len(),
        trim_start(s) == s.skip(from),
        forall|i: int| 0 <= i < from ==> is_white_space(#[trigger] s[i]),
        from < s.len() ==> !is_white_space(s[from]),
    decreases s.len(),
{
    if s.len() > 0 && is_white_space(s[0]) {
        let rest = s.drop_first();
        let from = lemma_trim_start(rest);
        assert(rest.skip(from) =~= s.skip(from + 1));
        assert forall|i: int| 0 <= i < from + 1 implies is_white_space(#[trigger] s[i]) by {
            if i > 0 {
                assert(rest[i - 1] == s[i]);
            }
        }
        from + 1
    } else {
        assert(s.skip(0) =~= s);
        0
    }
}

/// Where the text without its trailing white space ends.
proof fn lemma_trim_end(s: Seq<char>) -> (to: int)
    ensures
        0 <= to <= s.len(),
        trim_end(s) == s.take(to),
        forall|i: int| to <= i < s.len() ==> is_white_space(#[trigger] s[i]),
        to > 0 ==> !is_white_space(s[to - 1]),
    decreases s.len(),
{
    if s.len() > 0 && is_white_space(s.last()) {
        let rest = s.drop_last();
        let to = lemma_trim_end(rest);
        assert(rest.take(to) =~= s.take(to));
        assert forall|i: int| to <= i < s.len() implies is_white_space(#[trigger] s[i]) by {
            if i < s.len() - 1 {
                assert(rest[i] == s[i]);
            }
        }
        to
    } else {
        assert(s.take(s.len() as int) =~= s);
        s.len() as int
    }
}

/// Whether these are the maximal runs of characters that are not white space: the `k`-th is the
/// text from `starts[k]` to `ends[k]`, it holds no white space, it stands between white space or
/// the ends of the text, the runs are in the order in which they stand, and every character that
/// is not white space is in one of them.
pub open spec fn are_maximal_runs(
    s: Seq<char>,
    runs: Seq<Seq<char>>,
    starts: Seq<int>,
    ends: Seq<int>,
) -> bool {
    &&& starts.len() == runs.len()
    &&& ends.len() == runs.len()
    &&& forall|k: int|
        0 <= k < runs.len() ==> {
            &&& 0 <= #[trigger] starts[k] < ends[k] <= s.len()
            &&& runs[k] == s.subrange(starts[k], ends[k])
            &&& starts[k] == 0 || is_white_space(s[starts[k] - 1])
            &&& ends[k] == s.len() || is_white_space(s[ends[k]])
        }
    &&& forall|k: int, i: int|
        0 <= k < runs.len() && #[trigger] starts[k] <= i < ends[k] ==> !is_white_space(
            #[trigger] s[i],
        )
    &&& forall|k: int, l: int| 0 <= k < l < runs.len() ==> #[trigger] ends[k] < #[trigger] starts[l]
    &&& forall|i: int|
        0 <= i < s.len() && !is_white_space(#[trigger] s[i]) ==> in_some_run(starts, ends, i)
}

/// Whether a position is in one of some runs.
pub open spec fn in_some_run(starts: Seq<int>, ends: Seq<int>, i: int) -> bool {
    exists|k: int| 0 <= k < starts.len() && #[trigger] starts[k] <= i < ends[k]
}

/// Words are the maximal runs of characters that are not white space.
pub proof fn law_words_are_maximal_runs(s: Seq<char>) -> (r: (Seq<int>, Seq<int>))
    ensures
        are_maximal_runs(s, words(s), r.0, r.1),
    decreases s.len(),
{
    if s.len() == 0 {
        (Seq::empty(), Seq::empty())
    } else {
        let rest = s.drop_last();
        let n = s.len() - 1;
        let (starts, ends) = law_words_are_maximal_runs(rest);
        if is_white_space(s.last()) {
            lemma_runs_before_white_space(s, words(rest), starts, ends);
            (starts, ends)
        } else if s.len() == 1 || is_white_space(s[n - 1]) {
            lemma_runs_with_a_new_one(s, words(rest), starts, ends);
            (starts.push(n), ends.push(n + 1))
        } else {
            lemma_runs_with_a_longer_one(s, words(rest), starts, ends);
            (starts, ends.update(ends.len() - 1, n + 1))
        }
    }
}

/// White space behind a text leaves its runs as they are.
#[verifier::spinoff_prover]
proof fn lemma_runs_before_white_space(
    s: Seq<char>,
    runs: Seq<Seq<char>>,
    starts: Seq<int>,
    ends: Seq<int>,
)
    requires
        s.len() > 0,
        is_white_space(s.last()),
        are_maximal_runs(s.drop_last(), runs, starts, ends),
    ensures
        are_maximal_runs(s, runs, starts, ends),
{
    let rest = s.drop_last();
    assert(forall|i: int| 0 <= i < rest.len() ==> #[trigger] rest[i] == s[i]);
    assert forall|k: int| 0 <= k < runs.len() implies {
        &&& 0 <= #[trigger] starts[k] < ends[k] <= s.len()
        &&& runs[k] == s.subrange(starts[k], ends[k])
        &&& starts[k] == 0 || is_white_space(s[starts[k] - 1])
        &&& ends[k] == s.len() || is_white_space(s[ends[k]])
    } by {
        assert(rest.subrange(starts[k], ends[k]) =~= s.subrange(starts[k], ends[k]));
    }
    assert forall|k: int, i: int|
        0 <= k < runs.len() && #[trigger] starts[k] <= i < ends[k] implies !is_white_space(
        #[trigger] s[i],
    ) by {
        assert(!is_white_space(rest[i]));
    }
    assert forall|i: int| 0 <= i < s.len() && !is_white_space(#[trigger] s[i]) implies in_some_run(
        starts,
        ends,
        i,
    ) by {
        assert(!is_white_space(rest[i]));
    }
}

/// A character behind white space begins a run.
#[verifier::spinoff_prover]
proof fn lemma_runs_with_a_new_one(
    s: Seq<char>,
    runs: Seq<Seq<char>>,
    starts: Seq<int>,
    ends: Seq<int>,
)
    requires
        s.len() > 0,
        !is_white_space(s.last()),
        s.len() == 1 || is_white_space(s[s.len() - 2]),
        are_maximal_runs(s.drop_last(), runs, starts, ends),
    ensures
        are_maximal_runs(
            s,
            runs.push(seq![s.last()]),
            starts.push(s.len() - 1),
            ends.push(s.len() as int),
        ),
{
    let rest = s.drop_last();
    let n = s.len() - 1;
    let all = runs.push(seq![s.last()]);
    let new_starts = starts.push(n);
    let new_ends = ends.push(n + 1);
    assert(forall|i: int| 0 <= i < rest.len() ==> #[trigger] rest[i] == s[i]);
    assert forall|k: int| 0 <= k < runs.len() implies 0 <= #[trigger] starts[k] < ends[k] < n by {
        let i = ends[k] - 1;
        assert(0 <= starts[k] <= i < rest.len());
        assert(!is_white_space(rest[i]));
    }
    assert(seq![s.last()] =~= s.subrange(n, n + 1));
    assert forall|k: int| 0 <= k < all.len() implies {
        &&& 0 <= #[trigger] new_starts[k] < new_ends[k] <= s.len()
        &&& all[k] == s.subrange(new_starts[k], new_ends[k])
        &&& new_starts[k] == 0 || is_white_space(s[new_starts[k] - 1])
        &&& new_ends[k] == s.len() || is_white_space(s[new_ends[k]])
    } by {
        if k < runs.len() {
            assert(new_starts[k] == starts[k]);
            assert(starts[k] < ends[k] < n);
            assert(rest.subrange(starts[k], ends[k]) =~= s.subrange(starts[k], ends[k]));
        }
    }
    assert forall|k: int, i: int|
        0 <= k < all.len() && #[trigger] new_starts[k] <= i < new_ends[k] implies !is_white_space(
        #[trigger] s[i],
    ) by {
        if k < runs.len() {
            assert(starts[k] <= i < ends[k]);
            assert(!is_white_space(rest[i]));
        }
    }
    assert forall|k: int, l: int| 0 <= k < l < all.len() implies #[trigger] new_ends[k]
        < #[trigger] new_starts[l] by {
        assert(new_ends[k] == ends[k]);
        assert(starts[k] < ends[k]);
        if l < runs.len() {
            assert(ends[k] < starts[l]);
        }
    }
    assert forall|i: int| 0 <= i < s.len() && !is_white_space(#[trigger] s[i]) implies in_some_run(
        new_starts,
        new_ends,
        i,
    ) by {
        if i < n {
            assert(!is_white_space(rest[i]));
            assert(in_some_run(starts, ends, i));
            let k = choose|k: int| 0 <= k < starts.len() && #[trigger] starts[k] <= i < ends[k];
            assert(new_starts[k] <= i < new_ends[k]);
        } else {
            assert(new_starts[runs.len() as int] <= i < new_ends[runs.len() as int]);
        }
    }
}

/// A character behind one that is not white space belongs to the last run.
#[verifier::spinoff_prover]
proof fn lemma_runs_with_a_longer_one(
    s: Seq<char>,
    runs: Seq<Seq<char>>,
    starts: Seq<int>,
    ends: Seq<int>,
)
    requires
        s.len() > 1,
        !is_white_space(s.last()),
        !is_white_space(s[s.len() - 2]),
        are_maximal_runs(s.drop_last(), runs, starts, ends),
    ensures
        runs.len() > 0,
        are_maximal_runs(
            s,
            runs.drop_last().push(runs.last().push(s.last())),
            starts,
            ends.update(ends.len() - 1, s.len() as int),
        ),
{
    let rest = s.drop_last();
    let n = s.len() - 1;
    assert(forall|i: int| 0 <= i < rest.len() ==> #[trigger] rest[i] == s[i]);
    assert(!is_white_space(rest[n - 1]));
    assert(in_some_run(starts, ends, n - 1));
    let at = choose|k: int| 0 <= k < starts.len() && #[trigger] starts[k] <= n - 1 < ends[k];
    let last = runs.len() - 1;
    assert(at == last) by {
        if at < last {
            assert(ends[at] < starts[last]);
        }
    }
    let all = runs.drop_last().push(runs.last().push(s.last()));
    let new_ends = ends.update(last, n + 1);
    assert(runs[last].push(s.last()) =~= s.subrange(starts[last], n + 1));
    assert forall|k: int| 0 <= k < all.len() implies {
        &&& 0 <= #[trigger] starts[k] < new_ends[k] <= s.len()
        &&& all[k] == s.subrange(starts[k], new_ends[k])
        &&& starts[k] == 0 || is_white_space(s[starts[k] - 1])
        &&& new_ends[k] == s.len() || is_white_space(s[new_ends[k]])
    } by {
        if k < last {
            assert(ends[k] < starts[last]);
            assert(all[k] == runs[k]);
            assert(rest.subrange(starts[k], ends[k]) =~= s.subrange(starts[k], ends[k]));
        }
    }
    assert forall|k: int, i: int|
        0 <= k < all.len() && #[trigger] starts[k] <= i < new_ends[k] implies !is_white_space(
        #[trigger] s[i],
    ) by {
        if i < n {
            assert(starts[k] <= i < ends[k]);
            assert(!is_white_space(rest[i]));
        }
    }
    assert forall|k: int, l: int| 0 <= k < l < all.len() implies #[trigger] new_ends[k]
        < #[trigger] starts[l] by {
        assert(new_ends[k] == ends[k]);
        assert(ends[k] < starts[l]);
    }
    assert forall|i: int| 0 <= i < s.len() && !is_white_space(#[trigger] s[i]) implies in_some_run(
        starts,
        new_ends,
        i,
    ) by {
        if i < n {
            assert(!is_white_space(rest[i]));
            assert(in_some_run(starts, ends, i));
            let k = choose|k: int| 0 <= k < starts.len() && #[trigger] starts[k] <= i < ends[k];
            assert(starts[k] <= i < new_ends[k]);
        } else {
            assert(starts[last] <= i < new_ends[last]);
        }
    }
}

/// What digits are worth by their places: each digit times a power of eight, the last one times
/// one.
pub open spec fn place_sum(s: Seq<char>) -> int
    decreases s.len(),
{
    if s.len() == 0 {
        0
    } else {
        (s[0] as int - '0' as int) * vstd::arithmetic::power::pow(8, (s.len() - 1) as nat)
            + place_sum(s.drop_first())
    }
}

/// One digit more multiplies what stands before it by eight.
proof fn lemma_place_sum_push(s: Seq<char>, c: char)
    ensures
        place_sum(s.push(c)) == place_sum(s) * 8 + (c as int - '0' as int),
    decreases s.len(),
{
    let longer = s.push(c);
    if s.len() == 0 {
        vstd::arithmetic::power::lemma_pow0(8);
        assert(longer.drop_first() =~= s);
        assert(longer[0] == c);
        assert((c as int - '0' as int) * 1 == c as int - '0' as int);
    } else {
        let d = s[0] as int - '0' as int;
        let p = vstd::arithmetic::power::pow(8, (s.len() - 1) as nat);
        lemma_place_sum_push(s.drop_first(), c);
        assert(longer.drop_first() =~= s.drop_first().push(c));
        assert(longer[0] == s[0]);
        vstd::arithmetic::power::lemma_pow_adds(8, 1, (s.len() - 1) as nat);
        vstd::arithmetic::power::lemma_pow1(8);
        assert(vstd::arithmetic::power::pow(8, s.len()) == 8 * p);
        assert(d * (8 * p) == 8 * (d * p)) by (nonlinear_arith);
    }
}

/// A number in octal is worth the sum of its digits by their places.
pub proof fn law_octal_digits_count_by_their_places(s: Seq<char>)
    ensures
        octal_value(s) == place_sum(s),
    decreases s.len(),
{
    if s.len() > 0 {
        law_octal_digits_count_by_their_places(s.drop_last());
        lemma_place_sum_push(s.drop_last(), s.last());
        assert(s.drop_last().push(s.last()) =~= s);
    }
}

/// The views of strings are those of each of them, in order.
pub proof fn law_views_are_those_of_each(v: Seq<String>, s: Option<String>)
    ensures
        views(v).len() == v.len(),
        forall|i: int| 0 <= i < v.len() ==> #[trigger] views(v)[i] == v[i]@,
        s is Some <==> view_of(s) is Some,
        s is Some ==> view_of(s)->0 == s->0@,
{
}

} // verus!
