//! Character-level text primitives: white space, words, trimming, the
//! alphabetical order of strings, joining and substring search.
//!
//! Strings are modelled as `Seq<char>`; the executable versions work on
//! `Vec<char>`, which gives constant-time indexing.

use vstd::prelude::*;

verus! {

/// The characters with the Unicode property `White_Space`.
pub open spec fn is_space(c: char) -> bool {
    let n = c as u32;
    ||| 0x09 <= n <= 0x0D
    ||| n == 0x20
    ||| n == 0x85
    ||| n == 0xA0
    ||| n == 0x1680
    ||| 0x2000 <= n <= 0x200A
    ||| n == 0x2028
    ||| n == 0x2029
    ||| n == 0x202F
    ||| n == 0x205F
    ||| n == 0x3000
}

/// Whether `c` is white space.
pub fn is_whitespace(c: char) -> (r: bool)
    ensures
        r == is_space(c),
{
    let n: u32 = c as u32;
    (0x09 <= n && n <= 0x0D) || n == 0x20 || n == 0x85 || n == 0xA0 || n == 0x1680 || (0x2000 <= n
        && n <= 0x200A) || n == 0x2028 || n == 0x2029 || n == 0x202F || n == 0x205F || n == 0x3000
}

/// Whether some character of `s` is white space.
pub open spec fn has_space(s: Seq<char>) -> bool {
    exists|i: int| 0 <= i < s.len() && is_space(#[trigger] s[i])
}

/// The views of a list of character vectors.
pub open spec fn char_views(v: Seq<Vec<char>>) -> Seq<Seq<char>> {
    Seq::new(v.len(), |i: int| v[i]@)
}

/// The views of a list of strings.
pub open spec fn string_views(v: Seq<String>) -> Seq<Seq<char>> {
    Seq::new(v.len(), |i: int| v[i]@)
}

/// The characters of `s`, in order.
pub fn chars_of(s: &str) -> (chars: Vec<char>)
    ensures
        chars@ == s@,
{
    let mut chars: Vec<char> = Vec::new();
    for c in it: s.chars()
        invariant
            chars@ == it.seq().take(it.index() as int),
    {
        chars.push(c);
    }
    chars
}

/// The string made of `chars`.
///
/// Wraps `String::from_iter` of std, which collects the characters it is
/// given, in order, into a new string.
#[verifier::external_body]
pub(crate) fn string_of(chars: &Vec<char>) -> (s: String)
    ensures
        s@ == chars@,
{
    String::from_iter(chars.iter())
}

/// The length of the longest prefix of `s` that holds no white space.
pub open spec fn word_len(s: Seq<char>) -> nat
    decreases s.len(),
{
    if s.len() == 0 || is_space(s[0]) {
        0
    } else {
        1 + word_len(s.skip(1))
    }
}

/// The words of `s`: its maximal runs of characters that are not white
/// space, from left to right.
pub open spec fn words(s: Seq<char>) -> Seq<Seq<char>>
    decreases s.len(),
{
    if s.len() == 0 {
        Seq::empty()
    } else if is_space(s[0]) {
        words(s.skip(1))
    } else {
        let n = word_len(s) as int;
        proof {
            lemma_word_len_bounds(s);
        }
        seq![s.take(n)] + words(s.skip(n))
    }
}

/// `word_len` is at most the length, and positive on a sequence that starts
/// with a character of a word.
pub proof fn lemma_word_len_bounds(s: Seq<char>)
    ensures
        word_len(s) <= s.len(),
        s.len() > 0 && !is_space(s[0]) ==> word_len(s) >= 1,
    decreases s.len(),
{
    if s.len() > 0 && !is_space(s[0]) {
        lemma_word_len_bounds(s.skip(1));
    }
}

/// A prefix of `n` characters without white space that ends the sequence or
/// is followed by white space is the first word.
proof fn lemma_word_len_is(s: Seq<char>, n: int)
    requires
        0 <= n <= s.len(),
        forall|k: int| 0 <= k < n ==> !is_space(#[trigger] s[k]),
        n == s.len() || is_space(s[n]),
    ensures
        word_len(s) == n,
    decreases n,
{
    if n > 0 {
        let rest = s.skip(1);
        assert forall|k: int| 0 <= k < n - 1 implies !is_space(#[trigger] rest[k]) by {
            assert(rest[k] == s[k + 1]);
        }
        lemma_word_len_is(rest, n - 1);
    }
}

/// The first word holds no white space.
proof fn lemma_word_len_no_space(s: Seq<char>)
    ensures
        forall|k: int| 0 <= k < word_len(s) ==> !is_space(#[trigger] s[k]),
    decreases s.len(),
{
    if s.len() > 0 && !is_space(s[0]) {
        let rest = s.skip(1);
        lemma_word_len_no_space(rest);
        lemma_word_len_bounds(rest);
        assert forall|k: int| 0 <= k < word_len(s) implies !is_space(#[trigger] s[k]) by {
            if k > 0 {
                assert(s[k] == rest[k - 1]);
            }
        }
    }
}

/// Every word has at least one character and no white space.
pub proof fn lemma_words_shape(s: Seq<char>)
    ensures
        forall|k: int|
            0 <= k < words(s).len() ==> (#[trigger] words(s)[k]).len() > 0 && !has_space(
                words(s)[k],
            ),
    decreases s.len(),
{
    if s.len() == 0 {
    } else if is_space(s[0]) {
        lemma_words_shape(s.skip(1));
        assert(words(s) == words(s.skip(1)));
    } else {
        let n = word_len(s) as int;
        lemma_word_len_bounds(s);
        lemma_word_len_no_space(s);
        lemma_words_shape(s.skip(n));
        let first = s.take(n);
        let rest = words(s.skip(n));
        assert(words(s) == seq![first] + rest);
        assert forall|k: int| 0 <= k < words(s).len() implies (#[trigger] words(s)[k]).len() > 0
            && !has_space(words(s)[k]) by {
            if k == 0 {
                assert(words(s)[0] == first);
                assert forall|m: int| 0 <= m < first.len() implies !is_space(
                    #[trigger] first[m],
                ) by {
                    assert(first[m] == s[m]);
                }
            } else {
                assert(words(s)[k] == rest[k - 1]);
            }
        }
    }
}

/// Splits `s` into its words.
pub fn split_words(s: &Vec<char>) -> (out: Vec<Vec<char>>)
    ensures
        char_views(out@) == words(s@),
{
    let n: usize = s.len();
    let mut out: Vec<Vec<char>> = Vec::new();
    let mut i: usize = 0;
    proof {
        assert(s@.skip(0) == s@);
        assert(char_views(out@) + words(s@) == words(s@));
    }
    while i < n
        invariant
            n == s.len(),
            i <= n,
            words(s@) == char_views(out@) + words(s@.skip(i as int)),
        decreases n - i,
    {
        let ghost rest = s@.skip(i as int);
        if is_whitespace(s[i]) {
            proof {
                assert(rest.skip(1) == s@.skip(i + 1));
            }
            i = i + 1;
        } else {
            let mut word: Vec<char> = Vec::new();
            let mut j: usize = i;
            while j < n && !is_whitespace(s[j])
                invariant
                    n == s.len(),
                    i <= j <= n,
                    word@ == s@.subrange(i as int, j as int),
                    forall|k: int| i <= k < j ==> !is_space(#[trigger] s@[k]),
                decreases n - j,
            {
                word.push(s[j]);
                j = j + 1;
            }
            proof {
                let len = j - i;
                assert forall|k: int| 0 <= k < len implies !is_space(#[trigger] rest[k]) by {
                    assert(rest[k] == s@[i + k]);
                }
                lemma_word_len_is(rest, len);
                assert(rest.take(len) == word@);
                assert(rest.skip(len) == s@.skip(j as int));
                assert(char_views(out@.push(word)) == char_views(out@) + seq![word@]);
            }
            out.push(word);
            i = j;
        }
    }
    proof {
        assert(s@.skip(n as int) == Seq::<char>::empty());
    }
    out
}

/// `s` without its leading white space.
pub open spec fn trim_start(s: Seq<char>) -> Seq<char>
    decreases s.len(),
{
    if s.len() > 0 && is_space(s[0]) {
        trim_start(s.skip(1))
    } else {
        s
    }
}

/// `s` without its trailing white space.
pub open spec fn trim_end(s: Seq<char>) -> Seq<char>
    decreases s.len(),
{
    if s.len() > 0 && is_space(s.last()) {
        trim_end(s.drop_last())
    } else {
        s
    }
}

/// `s` without its leading and trailing white space.
pub open spec fn trim(s: Seq<char>) -> Seq<char> {
    trim_end(trim_start(s))
}

/// Whether `s` neither starts nor ends with white space.
pub open spec fn is_trimmed(s: Seq<char>) -> bool {
    s.len() > 0 ==> !is_space(s[0]) && !is_space(s.last())
}

/// Trimming the start leaves a sequence that does not start with white
/// space, and keeps the end.
proof fn lemma_trim_start(s: Seq<char>)
    ensures
        trim_start(s).len() <= s.len(),
        trim_start(s) == s.skip(s.len() - trim_start(s).len()),
        trim_start(s).len() > 0 ==> !is_space(trim_start(s)[0]),
        forall|k: int| 0 <= k < s.len() - trim_start(s).len() ==> is_space(#[trigger] s[k]),
    decreases s.len(),
{
    if s.len() > 0 && is_space(s[0]) {
        let rest = s.skip(1);
        lemma_trim_start(rest);
        let cut = rest.len() - trim_start(rest).len();
        assert(rest.skip(cut) == s.skip(cut + 1));
        assert forall|k: int| 0 <= k < s.len() - trim_start(s).len() implies is_space(
            #[trigger] s[k],
        ) by {
            if k > 0 {
                assert(s[k] == rest[k - 1]);
            }
        }
    } else {
        assert(s.skip(0) == s);
    }
}

/// Trimming the end leaves a sequence that does not end with white space,
/// and keeps the start.
proof fn lemma_trim_end(s: Seq<char>)
    ensures
        trim_end(s).len() <= s.len(),
        trim_end(s) == s.take(trim_end(s).len() as int),
        trim_end(s).len() > 0 ==> !is_space(trim_end(s).last()),
        forall|k: int| trim_end(s).len() <= k < s.len() ==> is_space(#[trigger] s[k]),
    decreases s.len(),
{
    if s.len() > 0 && is_space(s.last()) {
        let rest = s.drop_last();
        lemma_trim_end(rest);
        let keep = trim_end(rest).len() as int;
        assert(rest.take(keep) == s.take(keep));
        assert forall|k: int| trim_end(s).len() <= k < s.len() implies is_space(
            #[trigger] s[k],
        ) by {
            if k < s.len() - 1 {
                assert(s[k] == rest[k]);
            }
        }
    } else {
        assert(s.take(s.len() as int) == s);
    }
}

/// What `trim` returns neither starts nor ends with white space.
pub proof fn lemma_trim_is_trimmed(s: Seq<char>)
    ensures
        is_trimmed(trim(s)),
{
    let t = trim_start(s);
    lemma_trim_start(s);
    lemma_trim_end(t);
    let r = trim_end(t);
    if r.len() > 0 {
        assert(r[0] == t[0]);
    }
}

/// A sequence that neither starts nor ends with white space is its own
/// trimmed form; so trimming twice is trimming once.
pub proof fn lemma_trim_idempotent(s: Seq<char>)
    ensures
        is_trimmed(s) ==> trim(s) == s,
        trim(trim(s)) == trim(s),
{
    lemma_trim_is_trimmed(s);
}

/// `s` without its leading and trailing white space.
pub fn trim_chars(s: &Vec<char>) -> (out: Vec<char>)
    ensures
        out@ == trim(s@),
{
    let n: usize = s.len();
    let mut a: usize = 0;
    proof {
        assert(s@.skip(0) == s@);
    }
    while a < n && is_whitespace(s[a])
        invariant
            n == s.len(),
            a <= n,
            trim_start(s@) == trim_start(s@.skip(a as int)),
        decreases n - a,
    {
        proof {
            assert(s@.skip(a as int).skip(1) == s@.skip(a + 1));
        }
        a = a + 1;
    }
    let mut b: usize = n;
    proof {
        assert(s@.subrange(a as int, n as int) == s@.skip(a as int));
    }
    while b > a && is_whitespace(s[b - 1])
        invariant
            n == s.len(),
            a <= b <= n,
            trim(s@) == trim_end(s@.subrange(a as int, b as int)),
        decreases b,
    {
        proof {
            assert(s@.subrange(a as int, b as int).drop_last() == s@.subrange(
                a as int,
                b - 1,
            ));
        }
        b = b - 1;
    }
    let mut out: Vec<char> = Vec::new();
    let mut k: usize = a;
    while k < b
        invariant
            a <= k <= b <= n,
            n == s.len(),
            out@ == s@.subrange(a as int, k as int),
        decreases b - k,
    {
        out.push(s[k]);
        k = k + 1;
    }
    out
}

/// White space at the end adds nothing to the first word.
proof fn lemma_word_len_push_space(s: Seq<char>, c: char)
    requires
        is_space(c),
    ensures
        word_len(s.push(c)) == word_len(s),
    decreases s.len(),
{
    if s.len() > 0 && !is_space(s[0]) {
        assert(s.push(c).skip(1) == s.skip(1).push(c));
        lemma_word_len_push_space(s.skip(1), c);
    }
}

/// White space at the end adds no word.
proof fn lemma_words_push_space(s: Seq<char>, c: char)
    requires
        is_space(c),
    ensures
        words(s.push(c)) == words(s),
    decreases s.len(),
{
    let longer = s.push(c);
    if s.len() == 0 {
        assert(longer.skip(1) == s);
    } else if is_space(s[0]) {
        assert(longer.skip(1) == s.skip(1).push(c));
        lemma_words_push_space(s.skip(1), c);
    } else {
        let n = word_len(s) as int;
        lemma_word_len_bounds(s);
        lemma_word_len_push_space(s, c);
        assert(longer.take(n) == s.take(n));
        assert(longer.skip(n) == s.skip(n).push(c));
        lemma_words_push_space(s.skip(n), c);
    }
}

/// Trimming changes no word.
pub proof fn lemma_words_of_trimmed(s: Seq<char>)
    ensures
        words(trim_start(s)) == words(s),
        words(trim_end(s)) == words(s),
        words(trim(s)) == words(s),
{
    lemma_words_trim_start(s);
    lemma_words_trim_end(s);
    lemma_words_trim_end(trim_start(s));
}

proof fn lemma_words_trim_start(s: Seq<char>)
    ensures
        words(trim_start(s)) == words(s),
    decreases s.len(),
{
    if s.len() > 0 && is_space(s[0]) {
        lemma_words_trim_start(s.skip(1));
    }
}

proof fn lemma_words_trim_end(s: Seq<char>)
    ensures
        words(trim_end(s)) == words(s),
    decreases s.len(),
{
    if s.len() > 0 && is_space(s.last()) {
        lemma_words_trim_end(s.drop_last());
        assert(s == s.drop_last().push(s.last()));
        lemma_words_push_space(s.drop_last(), s.last());
    }
}

/// A sequence with a character that is no white space has a word.
proof fn lemma_some_word(s: Seq<char>, k: int)
    requires
        0 <= k < s.len(),
        !is_space(s[k]),
    ensures
        words(s).len() >= 1,
    decreases s.len(),
{
    if is_space(s[0]) {
        assert(s.skip(1)[k - 1] == s[k]);
        lemma_some_word(s.skip(1), k - 1);
    }
}

/// A sequence with white space somewhere between two characters that are
/// none has at least two words.
proof fn lemma_two_words(s: Seq<char>, k: int)
    requires
        0 < k < s.len() - 1,
        !is_space(s[0]),
        is_space(s[k]),
        !is_space(s.last()),
    ensures
        words(s).len() >= 2,
{
    let n = word_len(s) as int;
    lemma_word_len_bounds(s);
    lemma_word_len_no_space(s);
    assert(n <= k);
    let rest = s.skip(n);
    assert(rest[rest.len() - 1] == s.last());
    lemma_some_word(rest, rest.len() - 1);
}

/// The trimmed form of a sequence of at most one word holds no white
/// space.
pub proof fn lemma_one_word_has_no_space(s: Seq<char>)
    requires
        words(s).len() <= 1,
    ensures
        !has_space(trim(s)),
{
    let t = trim(s);
    lemma_words_of_trimmed(s);
    lemma_trim_is_trimmed(s);
    if has_space(t) {
        let k = choose|k: int| 0 <= k < t.len() && is_space(#[trigger] t[k]);
        lemma_two_words(t, k);
    }
}

/// The lowercase form of a string, as `str::to_lowercase` of std gives it.
pub uninterp spec fn lowercase(s: Seq<char>) -> Seq<char>;

/// The lowercase form of `s`.
///
/// Wraps `str::to_lowercase` of std. Its result depends on nothing but
/// the characters of `s`; which characters come out is left to std.
#[verifier::external_body]
pub(crate) fn to_lowercase(s: &str) -> (lower: String)
    ensures
        lower@ == lowercase(s@),
{
    s.to_lowercase()
}

/// The normal form of a string: its lowercase form, trimmed.
pub open spec fn normal_form(s: Seq<char>) -> Seq<char> {
    trim(lowercase(s))
}

/// The normal form of `s`: its lowercase form, trimmed.
pub fn normalize(s: &str) -> (normal: String)
    ensures
        normal@ == normal_form(s@),
        is_trimmed(normal@),
{
    let lower = to_lowercase(s);
    let trimmed = trim_chars(&chars_of(lower.as_str()));
    proof {
        lemma_trim_is_trimmed(lowercase(s@));
    }
    string_of(&trimmed)
}

/// The alphabetical order of strings: `a` comes no later than `b` when the
/// two are compared character by character, by code point, and a proper
/// prefix comes first.
pub open spec fn lex_le(a: Seq<char>, b: Seq<char>) -> bool
    decreases a.len(),
{
    if a.len() == 0 {
        true
    } else if b.len() == 0 {
        false
    } else if a[0] != b[0] {
        (a[0] as u32) < (b[0] as u32)
    } else {
        lex_le(a.skip(1), b.skip(1))
    }
}

/// `a` comes strictly before `b` in alphabetical order.
pub open spec fn lex_lt(a: Seq<char>, b: Seq<char>) -> bool {
    lex_le(a, b) && a != b
}

/// Distinct characters have distinct code points.
proof fn lemma_code_points_differ(a: char, b: char)
    requires
        a != b,
    ensures
        a as u32 != b as u32,
{
    assert((a as u32) as char == a);
    assert((b as u32) as char == b);
}

/// Every string is no later than itself.
pub proof fn lemma_lex_le_reflexive(a: Seq<char>)
    ensures
        lex_le(a, a),
    decreases a.len(),
{
    if a.len() > 0 {
        lemma_lex_le_reflexive(a.skip(1));
    }
}

/// Two strings that are each no later than the other are equal.
pub proof fn lemma_lex_le_antisymmetric(a: Seq<char>, b: Seq<char>)
    requires
        lex_le(a, b),
        lex_le(b, a),
    ensures
        a == b,
    decreases a.len(),
{
    if a.len() == 0 || b.len() == 0 {
        assert(a =~= b);
    } else {
        lemma_lex_le_antisymmetric(a.skip(1), b.skip(1));
        assert(a =~= seq![a[0]] + a.skip(1));
        assert(b =~= seq![b[0]] + b.skip(1));
    }
}

/// The alphabetical order is transitive.
pub proof fn lemma_lex_le_transitive(a: Seq<char>, b: Seq<char>, c: Seq<char>)
    requires
        lex_le(a, b),
        lex_le(b, c),
    ensures
        lex_le(a, c),
    decreases a.len(),
{
    if a.len() > 0 && a[0] == b[0] && b[0] == c[0] {
        lemma_lex_le_transitive(a.skip(1), b.skip(1), c.skip(1));
    }
}

/// Any two strings are comparable.
pub proof fn lemma_lex_le_total(a: Seq<char>, b: Seq<char>)
    ensures
        lex_le(a, b) || lex_le(b, a),
    decreases a.len(),
{
    if a.len() > 0 && b.len() > 0 {
        if a[0] == b[0] {
            lemma_lex_le_total(a.skip(1), b.skip(1));
        } else {
            lemma_code_points_differ(a[0], b[0]);
        }
    }
}

/// Whether `a` comes no later than `b` in alphabetical order.
pub fn lex_le_chars(a: &Vec<char>, b: &Vec<char>) -> (r: bool)
    ensures
        r == lex_le(a@, b@),
{
    let mut i: usize = 0;
    proof {
        assert(a@.skip(0) == a@);
        assert(b@.skip(0) == b@);
    }
    while i < a.len() && i < b.len()
        invariant
            i <= a.len(),
            i <= b.len(),
            lex_le(a@, b@) == lex_le(a@.skip(i as int), b@.skip(i as int)),
        decreases a.len() - i,
    {
        proof {
            assert(a@.skip(i as int)[0] == a@[i as int]);
            assert(b@.skip(i as int)[0] == b@[i as int]);
        }
        if a[i] != b[i] {
            return (a[i] as u32) < (b[i] as u32);
        }
        proof {
            assert(a@.skip(i as int).skip(1) == a@.skip(i + 1));
            assert(b@.skip(i as int).skip(1) == b@.skip(i + 1));
        }
        i = i + 1;
    }
    i == a.len()
}

/// Whether `a` and `b` hold the same characters.
pub fn same_chars(a: &Vec<char>, b: &Vec<char>) -> (r: bool)
    ensures
        r == (a@ == b@),
{
    if a.len() != b.len() {
        return false;
    }
    let mut i: usize = 0;
    while i < a.len()
        invariant
            a.len() == b.len(),
            i <= a.len(),
            a@.take(i as int) == b@.take(i as int),
        decreases a.len() - i,
    {
        if a[i] != b[i] {
            return false;
        }
        proof {
            assert(a@.take(i + 1) == a@.take(i as int).push(a@[i as int]));
            assert(b@.take(i + 1) == b@.take(i as int).push(b@[i as int]));
        }
        i = i + 1;
    }
    proof {
        assert(a@.take(a.len() as int) == a@);
        assert(b@.take(b.len() as int) == b@);
    }
    true
}

/// The parts in order, with `sep` between each two neighbours.
pub open spec fn join(parts: Seq<Seq<char>>, sep: Seq<char>) -> Seq<char>
    decreases parts.len(),
{
    if parts.len() == 0 {
        Seq::empty()
    } else if parts.len() == 1 {
        parts[0]
    } else {
        join(parts.drop_last(), sep) + sep + parts.last()
    }
}

/// Whether `needle` stands in `hay` at position `i`.
pub open spec fn occurs_at(hay: Seq<char>, needle: Seq<char>, i: int) -> bool {
    0 <= i && i + needle.len() <= hay.len() && hay.subrange(i, i + needle.len()) == needle
}

/// Whether `needle` is a substring of `hay`.
pub open spec fn occurs_in(hay: Seq<char>, needle: Seq<char>) -> bool {
    exists|i: int| occurs_at(hay, needle, i)
}

/// Whether `needle` is a substring of `hay`.
pub fn contains_chars(hay: &Vec<char>, needle: &Vec<char>) -> (r: bool)
    ensures
        r == occurs_in(hay@, needle@),
{
    let n: usize = hay.len();
    let m: usize = needle.len();
    if m > n {
        return false;
    }
    let mut i: usize = 0;
    while i <= n - m
        invariant
            n == hay.len(),
            m == needle.len(),
            m <= n,
            i <= n - m + 1,
            forall|k: int| 0 <= k < i ==> !occurs_at(hay@, needle@, k),
        decreases n - m + 1 - i,
    {
        let mut j: usize = 0;
        while j < m && hay[i + j] == needle[j]
            invariant
                n == hay.len(),
                m == needle.len(),
                i + m <= n,
                j <= m,
                forall|k: int| 0 <= k < j ==> hay@[i + k] == needle@[k],
            decreases m - j,
        {
            j = j + 1;
        }
        if j == m {
            proof {
                assert(hay@.subrange(i as int, i + m) =~= needle@);
                assert(occurs_at(hay@, needle@, i as int));
            }
            return true;
        }
        proof {
            if occurs_at(hay@, needle@, i as int) {
                assert(hay@.subrange(i as int, i + m)[j as int] == hay@[i + j]);
            }
        }
        i = i + 1;
    }
    false
}

} // verus!
