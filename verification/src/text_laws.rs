//! What the text operations do to texts that are put together from parts.
use vstd::prelude::*;
use crate::text::{
    after_prefix, is_white_space, joined, lemma_word_len, trimmed, trimmed_end, trimmed_start,
    word_len, words,
};

verus! {

/// A text without white space is one word, and no text has no words.
pub proof fn text_without_white_space_is_a_word(text: Seq<char>)
    requires
        forall|i: int| 0 <= i < text.len() ==> !is_white_space(#[trigger] text[i]),
    ensures
        words(text) == (if text.len() == 0 {
            Seq::<Seq<char>>::empty()
        } else {
            seq![text]
        }),
{
    if text.len() > 0 {
        lemma_word_len(text);
        assert(word_len(text) == text.len());
        assert(text.take(text.len() as int) == text);
        assert(words(text.skip(text.len() as int)) == Seq::<Seq<char>>::empty());
        assert(words(text) == seq![text]);
    }
}

/// A character of white space parts the words before it from those after it.
pub proof fn white_space_parts_words(before: Seq<char>, c: char, after: Seq<char>)
    requires
        is_white_space(c),
    ensures
        words(before.push(c) + after) == words(before) + words(after),
    decreases before.len(),
{
    let text = before.push(c) + after;
    if before.len() == 0 {
        assert(text.drop_first() == after);
        assert(words(before) + words(after) == words(after));
    } else if is_white_space(before[0]) {
        white_space_parts_words(before.drop_first(), c, after);
        assert(text[0] == before[0]);
        assert(text.drop_first() == before.drop_first().push(c) + after);
    } else {
        lemma_word_len(before);
        lemma_word_len(text);
        let n = word_len(before) as int;
        assert(text[0] == before[0]);
        assert(word_len(text) == n) by {
            let m = word_len(text) as int;
            if n < m {
                assert(text[n] == (if n < before.len() {
                    before[n]
                } else {
                    c
                }));
            } else if m < n {
                assert(text[m] == before[m]);
            }
        }
        assert(n > 0);
        assert(text.take(n) == before.take(n));
        assert(text.skip(n) == before.skip(n).push(c) + after);
        white_space_parts_words(before.skip(n), c, after);
        assert(words(text) == seq![before.take(n)] + (words(before.skip(n)) + words(after)));
        assert(words(before) == seq![before.take(n)] + words(before.skip(n)));
        assert(words(text) == words(before) + words(after));
    }
}

proof fn lemma_trimmed_start(blank: Seq<char>, rest: Seq<char>)
    requires
        forall|i: int| 0 <= i < blank.len() ==> is_white_space(#[trigger] blank[i]),
        rest.len() > 0 ==> !is_white_space(rest[0]),
    ensures
        trimmed_start(blank + rest) == rest,
    decreases blank.len(),
{
    let text = blank + rest;
    if blank.len() > 0 {
        assert(is_white_space(blank[0]));
        assert(text[0] == blank[0]);
        assert(text.drop_first() == blank.drop_first() + rest);
        lemma_trimmed_start(blank.drop_first(), rest);
    } else {
        assert(text == rest);
    }
}

proof fn lemma_trimmed_end(rest: Seq<char>, blank: Seq<char>)
    requires
        forall|i: int| 0 <= i < blank.len() ==> is_white_space(#[trigger] blank[i]),
        rest.len() > 0 ==> !is_white_space(rest.last()),
    ensures
        trimmed_end(rest + blank) == rest,
    decreases blank.len(),
{
    let text = rest + blank;
    if blank.len() > 0 {
        assert(is_white_space(blank[blank.len() - 1]));
        assert(text.last() == blank.last());
        assert(text.drop_last() == rest + blank.drop_last());
        lemma_trimmed_end(rest, blank.drop_last());
    } else {
        assert(text == rest);
    }
}

/// Trimming leaves exactly what stands between the white space at the two ends.
pub proof fn trimming_takes_off_white_space(left: Seq<char>, middle: Seq<char>, right: Seq<char>)
    requires
        forall|i: int| 0 <= i < left.len() ==> is_white_space(#[trigger] left[i]),
        forall|i: int| 0 <= i < right.len() ==> is_white_space(#[trigger] right[i]),
        middle.len() > 0 ==> !is_white_space(middle[0]) && !is_white_space(middle.last()),
    ensures
        trimmed(left + middle + right) == middle,
{
    if middle.len() > 0 {
        assert(left + middle + right == left + (middle + right));
        assert((middle + right)[0] == middle[0]);
        lemma_trimmed_start(left, middle + right);
        lemma_trimmed_end(middle, right);
    } else {
        let blank = left + right;
        assert(left + middle + right == blank + middle);
        assert forall|i: int| 0 <= i < blank.len() implies is_white_space(#[trigger] blank[i]) by {
            if i < left.len() {
                assert(blank[i] == left[i]);
            } else {
                assert(blank[i] == right[i - left.len()]);
            }
        }
        lemma_trimmed_start(blank, middle);
        assert(trimmed_end(middle) == middle);
    }
}

/// Taking a prefix off is possible exactly for the texts that consist of the prefix and a rest, and
/// gives the rest.
pub proof fn prefix_is_taken_off(text: Seq<char>, prefix: Seq<char>, rest: Seq<char>)
    ensures
        after_prefix(text, prefix) == Some(rest) <==> text == prefix + rest,
        after_prefix(text, prefix) is None ==> text != prefix + rest,
{
    if prefix.is_prefix_of(text) {
        assert(text == prefix + text.skip(prefix.len() as int));
    }
    if text == prefix + rest {
        assert(prefix.is_prefix_of(text));
        assert(text.skip(prefix.len() as int) == rest);
    }
}

/// Joining two lists one after the other puts the separator between their joined parts. Joining no
/// or one part adds nothing.
pub proof fn joining_goes_by_parts(
    a: Seq<Seq<char>>,
    b: Seq<Seq<char>>,
    part: Seq<char>,
    separator: Seq<char>,
)
    ensures
        joined(Seq::empty(), separator) == Seq::<char>::empty(),
        joined(seq![part], separator) == part,
        a.len() > 0 && b.len() > 0 ==> joined(a + b, separator) == joined(a, separator) + separator
            + joined(b, separator),
    decreases b.len(),
{
    if a.len() > 0 && b.len() > 0 {
        assert((a + b).drop_last() == a + b.drop_last());
        assert((a + b).last() == b.last());
        if b.len() > 1 {
            joining_goes_by_parts(a, b.drop_last(), part, separator);
            assert(joined(a + b, separator) == joined(a, separator) + separator + joined(
                b,
                separator,
            ));
        } else {
            assert(b.drop_last().len() == 0);
            assert(a + b.drop_last() == a);
            assert(joined(b, separator) == b[0]);
        }
    }
}

} // verus!
