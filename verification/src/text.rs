//! Text operations on strings, stated over sequences of characters.
use vstd::prelude::*;
use vstd::string::StringExecFns;
use vstd::string::StrSliceExecFns;

verus! {

/// The characters of each string of a list.
pub open spec fn views(strings: Seq<String>) -> Seq<Seq<char>> {
    Seq::new(strings.len(), |i: int| strings[i]@)
}

/// How many bytes a text takes up in UTF-8.
pub open spec fn byte_len(text: Seq<char>) -> nat {
    vstd::utf8::encode_utf8(text).len()
}

/// Every character takes up at least one byte.
pub proof fn lemma_byte_len_positive(text: Seq<char>)
    requires
        text.len() > 0,
    ensures
        byte_len(text) > 0,
{
    vstd::utf8::char_is_scalar(text[0]);
}

/// The number of bytes of `text`.
pub fn text_len(text: &str) -> (len: usize)
    ensures
        len == byte_len(text@),
{
    text.as_bytes().len()
}

/// Whether two texts are the same.
pub fn same_text(a: &str, b: &str) -> (same: bool)
    ensures
        same == (a@ == b@),
{
    a.to_owned() == b.to_owned()
}

/// The characters of `text` in order.
pub fn chars_of(text: &str) -> (chars: Vec<char>)
    ensures
        chars@ == text@,
{
    let mut chars: Vec<char> = Vec::new();
    for c in iter: text.chars()
        invariant
            iter.seq() == text@,
            chars@ == text@.take(iter.index() as int),
    {
        chars.push(c);
    }
    chars
}

/// `a` followed by `b`.
pub fn concat2(a: &str, b: &str) -> (text: String)
    ensures
        text@ == a@ + b@,
{
    let mut text: String = a.to_owned();
    text.append(b);
    text
}

/// `a`, `b` and `c` one after the other.
pub fn concat3(a: &str, b: &str, c: &str) -> (text: String)
    ensures
        text@ == a@ + b@ + c@,
{
    let mut text: String = a.to_owned();
    text.append(b);
    text.append(c);
    text
}

/// The parts one after the other, with `separator` between any two neighbours.
pub open spec fn joined(parts: Seq<Seq<char>>, separator: Seq<char>) -> Seq<char>
    decreases parts.len(),
{
    if parts.len() == 0 {
        Seq::empty()
    } else if parts.len() == 1 {
        parts[0]
    } else {
        joined(parts.drop_last(), separator) + separator + parts.last()
    }
}

proof fn lemma_last_separator(
    x: Seq<char>,
    p: Seq<char>,
    y: Seq<char>,
    q: Seq<char>,
    separator: char,
)
    requires
        x.push(separator) + p == y.push(separator) + q,
        !p.contains(separator),
        !q.contains(separator),
    ensures
        x == y,
        p == q,
{
    let s = x.push(separator) + p;
    let r = y.push(separator) + q;
    assert(s.len() == r.len());
    assert(s[x.len() as int] == separator);
    assert(r[y.len() as int] == separator);
    if x.len() > y.len() {
        assert(r[x.len() as int] == q[x.len() - y.len() - 1]);
        assert(q.contains(separator));
    } else if y.len() > x.len() {
        assert(s[y.len() as int] == p[y.len() - x.len() - 1]);
        assert(p.contains(separator));
    }
    assert(x == s.take(x.len() as int));
    assert(y == r.take(x.len() as int));
    assert(p == s.skip((x.len() + 1) as int));
    assert(q == r.skip((x.len() + 1) as int));
}

/// Whether no text of a list contains `c`.
pub open spec fn all_lack(texts: Seq<Seq<char>>, c: char) -> bool {
    forall|i: int| 0 <= i < texts.len() ==> !(#[trigger] texts[i]).contains(c)
}

/// Whether the first list is empty and the second one has a single text, which is empty.
pub open spec fn nothing_and_empty(a: Seq<Seq<char>>, b: Seq<Seq<char>>) -> bool {
    a.len() == 0 && b.len() == 1 && b[0].len() == 0
}

/// Joining tells lists of parts apart, if no part contains the separator. There is one exception:
/// no part at all is not told from a single empty part.
pub proof fn joining_tells_parts_apart(
    a: Seq<Seq<char>>,
    b: Seq<Seq<char>>,
    separator: char,
)
    requires
        all_lack(a, separator),
        all_lack(b, separator),
        !nothing_and_empty(a, b),
        !nothing_and_empty(b, a),
        joined(a, seq![separator]) == joined(b, seq![separator]),
    ensures
        a == b,
    decreases a.len(),
{
    let one = seq![separator];
    let ja = joined(a, one);
    let jb = joined(b, one);
    if a.len() >= 2 {
        let init = joined(a.drop_last(), one);
        assert(ja == init.push(separator) + a.last());
        assert(ja[init.len() as int] == separator);
        assert(a[a.len() - 1] == a.last());
    }
    if b.len() >= 2 {
        let init = joined(b.drop_last(), one);
        assert(jb == init.push(separator) + b.last());
        assert(jb[init.len() as int] == separator);
        assert(b[b.len() - 1] == b.last());
    }
    if a.len() >= 2 && b.len() >= 2 {
        lemma_last_separator(
            joined(a.drop_last(), one),
            a.last(),
            joined(b.drop_last(), one),
            b.last(),
            separator,
        );
        joining_tells_parts_apart(a.drop_last(), b.drop_last(), separator);
        assert(a == a.drop_last().push(a.last()));
        assert(b == b.drop_last().push(b.last()));
    } else if a.len() >= 2 {
        if b.len() == 1 {
            assert(b[0].contains(separator));
        }
    } else if b.len() >= 2 {
        if a.len() == 1 {
            assert(a[0].contains(separator));
        }
    } else {
        assert(a == b);
    }
}

/// Joins `parts` with `separator` between any two neighbours.
pub fn join(parts: &Vec<String>, separator: &str) -> (text: String)
    ensures
        text@ == joined(views(parts@), separator@),
{
    let mut text: String = String::new();
    let mut i: usize = 0;
    while i < parts.len()
        invariant
            i <= parts.len(),
            text@ == joined(views(parts@).take(i as int), separator@),
        decreases parts.len() - i,
    {
        proof {
            let next = views(parts@).take(i + 1);
            assert(next.drop_last() == views(parts@).take(i as int));
            assert(next.last() == parts[i as int]@);
        }
        if i > 0 {
            text.append(separator);
        }
        text.append(parts[i].as_str());
        i += 1;
    }
    assert(views(parts@).take(i as int) == views(parts@));
    text
}

/// Whether `text` begins with `prefix`.
pub fn starts_with(text: &str, prefix: &str) -> (starts: bool)
    ensures
        starts == prefix@.is_prefix_of(text@),
{
    let n: usize = prefix.unicode_len();
    if n > text.unicode_len() {
        return false;
    }
    same_text(text.substring_char(0, n), prefix)
}

/// What follows `prefix` in `text`, if `text` begins with it.
pub open spec fn after_prefix(text: Seq<char>, prefix: Seq<char>) -> Option<Seq<char>> {
    if prefix.is_prefix_of(text) {
        Some(text.skip(prefix.len() as int))
    } else {
        None
    }
}

/// What follows `prefix` in `text`, if `text` begins with it.
pub fn strip_prefix(text: &str, prefix: &str) -> (rest: Option<String>)
    ensures
        match rest {
            Some(r) => after_prefix(text@, prefix@) == Some(r@),
            None => after_prefix(text@, prefix@) is None,
        },
{
    if starts_with(text, prefix) {
        let rest = text.substring_char(prefix.unicode_len(), text.unicode_len());
        Some(rest.to_owned())
    } else {
        None
    }
}

/// The characters that Unicode's property `White_Space` covers.
pub open spec fn is_white_space(c: char) -> bool {
    ||| '\u{9}' <= c <= '\u{D}'
    ||| c == '\u{20}'
    ||| c == '\u{85}'
    ||| c == '\u{A0}'
    ||| c == '\u{1680}'
    ||| '\u{2000}' <= c <= '\u{200A}'
    ||| c == '\u{2028}'
    ||| c == '\u{2029}'
    ||| c == '\u{202F}'
    ||| c == '\u{205F}'
    ||| c == '\u{3000}'
}

/// Whether `c` has Unicode's property `White_Space`.
pub fn is_whitespace(c: char) -> (white: bool)
    ensures
        white == is_white_space(c),
{
    ('\u{9}' <= c && c <= '\u{D}') || c == '\u{20}' || c == '\u{85}' || c == '\u{A0}'
        || c == '\u{1680}' || ('\u{2000}' <= c && c <= '\u{200A}') || c == '\u{2028}'
        || c == '\u{2029}' || c == '\u{202F}' || c == '\u{205F}' || c == '\u{3000}'
}

/// How many characters at the beginning of `text` are not white space.
pub open spec fn word_len(text: Seq<char>) -> nat
    decreases text.len(),
{
    if text.len() == 0 || is_white_space(text[0]) {
        0
    } else {
        1 + word_len(text.drop_first())
    }
}

/// The words of `text`: its longest runs of characters that are not white space, in order.
pub open spec fn words(text: Seq<char>) -> Seq<Seq<char>>
    decreases text.len(),
{
    if text.len() == 0 {
        Seq::empty()
    } else if is_white_space(text[0]) {
        words(text.drop_first())
    } else {
        proof {
            lemma_word_len(text);
        }
        seq![text.take(word_len(text) as int)] + words(text.skip(word_len(text) as int))
    }
}

/// `word_len` counts exactly the run of characters before the first white space.
pub proof fn lemma_word_len(text: Seq<char>)
    ensures
        word_len(text) <= text.len(),
        forall|i: int| 0 <= i < word_len(text) ==> !is_white_space(#[trigger] text[i]),
        word_len(text) < text.len() ==> is_white_space(text[word_len(text) as int]),
    decreases text.len(),
{
    if text.len() != 0 && !is_white_space(text[0]) {
        let rest = text.drop_first();
        lemma_word_len(rest);
        assert forall|i: int| 0 <= i < word_len(text) implies !is_white_space(
            #[trigger] text[i],
        ) by {
            if i > 0 {
                assert(rest[i - 1] == text[i]);
            }
        }
        if word_len(text) < text.len() {
            assert(rest[word_len(rest) as int] == text[word_len(text) as int]);
        }
    }
}

proof fn lemma_word_len_is(text: Seq<char>, len: nat)
    requires
        len <= text.len(),
        forall|i: int| 0 <= i < len ==> !is_white_space(#[trigger] text[i]),
        len < text.len() ==> is_white_space(text[len as int]),
    ensures
        word_len(text) == len,
{
    lemma_word_len(text);
    if word_len(text) < len {
        assert(is_white_space(text[word_len(text) as int]));
    } else if word_len(text) > len {
        assert(!is_white_space(text[len as int]));
    }
}

/// Splits `text` into its words.
pub fn split_whitespace(text: &str) -> (parts: Vec<String>)
    ensures
        views(parts@) == words(text@),
{
    let chars = chars_of(text);
    let mut parts: Vec<String> = Vec::new();
    let mut i: usize = 0;
    assert(text@.skip(0) == text@);
    while i < chars.len()
        invariant
            i <= chars.len(),
            chars@ == text@,
            views(parts@) + words(text@.skip(i as int)) == words(text@),
        decreases chars.len() - i,
    {
        let ghost rest = text@.skip(i as int);
        if is_whitespace(chars[i]) {
            assert(rest.drop_first() == text@.skip(i + 1));
            i += 1;
        } else {
            let mut j: usize = i + 1;
            while j < chars.len() && !is_whitespace(chars[j])
                invariant
                    i < j <= chars.len(),
                    chars@ == text@,
                    forall|k: int| i <= k < j ==> !is_white_space(#[trigger] text@[k]),
                decreases chars.len() - j,
            {
                j += 1;
            }
            let ghost before = views(parts@);
            parts.push(text.substring_char(i, j).to_owned());
            proof {
                assert forall|k: int| 0 <= k < j - i implies !is_white_space(
                    #[trigger] rest[k],
                ) by {
                    assert(rest[k] == text@[i + k]);
                }
                lemma_word_len_is(rest, (j - i) as nat);
                assert(rest.take(j - i) == text@.subrange(i as int, j as int));
                assert(rest.skip(j - i) == text@.skip(j as int));
                assert(views(parts@) == before.push(text@.subrange(i as int, j as int)));
                assert(before + (seq![text@.subrange(i as int, j as int)] + words(
                    text@.skip(j as int),
                )) == views(parts@) + words(text@.skip(j as int)));
            }
            i = j;
        }
    }
    assert(text@.skip(i as int).len() == 0);
    assert(views(parts@) + words(text@.skip(i as int)) == views(parts@));
    parts
}

/// `text` without the white space that it begins with.
pub open spec fn trimmed_start(text: Seq<char>) -> Seq<char>
    decreases text.len(),
{
    if text.len() > 0 && is_white_space(text[0]) {
        trimmed_start(text.drop_first())
    } else {
        text
    }
}

/// `text` without the white space that it ends with.
pub open spec fn trimmed_end(text: Seq<char>) -> Seq<char>
    decreases text.len(),
{
    if text.len() > 0 && is_white_space(text.last()) {
        trimmed_end(text.drop_last())
    } else {
        text
    }
}

/// `text` without the white space at both of its ends.
pub open spec fn trimmed(text: Seq<char>) -> Seq<char> {
    trimmed_end(trimmed_start(text))
}

/// Removes the white space at both ends of `text`.
pub fn trim(text: &str) -> (inner: &str)
    ensures
        inner@ == trimmed(text@),
{
    let chars = chars_of(text);
    let n: usize = chars.len();
    let mut from: usize = 0;
    assert(text@.skip(0) == text@);
    while from < n && is_whitespace(chars[from])
        invariant
            from <= n,
            n == chars.len(),
            chars@ == text@,
            trimmed_start(text@.skip(from as int)) == trimmed_start(text@),
        decreases n - from,
    {
        assert(text@.skip(from as int).drop_first() == text@.skip(from + 1));
        from += 1;
    }
    let mut to: usize = n;
    assert(text@.skip(from as int) == text@.subrange(from as int, n as int));
    while from < to && is_whitespace(chars[to - 1])
        invariant
            from <= to <= n,
            n == chars.len(),
            chars@ == text@,
            trimmed_end(text@.subrange(from as int, to as int)) == trimmed(text@),
        decreases to,
    {
        assert(text@.subrange(from as int, to as int).drop_last() == text@.subrange(
            from as int,
            to - 1,
        ));
        to -= 1;
    }
    text.substring_char(from, to)
}

} // verus!
