//! Slugs: the directory names that stand for display names.

use unicode_normalization::UnicodeNormalization;
use vstd::prelude::*;
use vstd::utf8::is_ascii_chars;

verus! {

/// The Unicode Normalization Form KD of a text.
pub uninterp spec fn nfkd_form(text: Seq<char>) -> Seq<char>;

/// Whether a character is a combining mark (General_Category=Mark).
pub uninterp spec fn is_mark(c: char) -> bool;

/// Trusts `UnicodeNormalization::nfkd` of the unicode-normalization crate: collected, it is the
/// compatibility decomposition of the text, which depends on the text alone and leaves an ASCII
/// text as it is.
#[verifier::external_body]
fn decompose(text: &str) -> (decomposed: String)
    ensures
        decomposed@ == nfkd_form(text@),
        is_ascii_chars(text@) ==> decomposed@ == text@,
{
    text.nfkd().collect()
}

/// Trusts `unicode_normalization::char::is_combining_mark`: its answer depends on the character
/// alone, and no ASCII character is a combining mark.
#[verifier::external_body]
fn combining_mark(c: char) -> (mark: bool)
    ensures
        mark == is_mark(c),
        c <= '\u{7f}' ==> !mark,
{
    unicode_normalization::char::is_combining_mark(c)
}

/// Whether a character is an ASCII letter or digit.
pub open spec fn alphanumeric(c: char) -> bool {
    ('0' <= c <= '9') || ('A' <= c <= 'Z') || ('a' <= c <= 'z')
}

/// The lower case form of an ASCII character.
pub open spec fn lower(c: char) -> char {
    if 'A' <= c <= 'Z' {
        (c as u8 + 32) as char
    } else {
        c
    }
}

/// The letter that stands for the Vietnamese d with stroke, which has no decomposition.
pub open spec fn unstroked(c: char) -> char {
    if c == '\u{111}' {
        'd'
    } else if c == '\u{110}' {
        'D'
    } else {
        c
    }
}

/// The characters of a name once it is decomposed and has lost its diacritics.
pub open spec fn base_letters(name: Seq<char>) -> Seq<char> {
    nfkd_form(name).filter(|c: char| !is_mark(c)).map_values(|c: char| unstroked(c))
}

/// The alphanumerics of a text in lower case, with one hyphen between any two of them that had
/// other characters between them.
pub open spec fn collapse(text: Seq<char>) -> Seq<char>
    decreases text.len(),
{
    if text.len() == 0 {
        Seq::empty()
    } else {
        let before = collapse(text.drop_last());
        let c = text.last();
        if !alphanumeric(c) {
            before
        } else if before.len() > 0 && !alphanumeric(text[text.len() - 2]) {
            before.push('-').push(lower(c))
        } else {
            before.push(lower(c))
        }
    }
}

/// The slug of a display name.
pub open spec fn slug_of(name: Seq<char>) -> Seq<char> {
    collapse(base_letters(name))
}

/// Whether a character may occur in a slug.
pub open spec fn slug_char(c: char) -> bool {
    ('0' <= c <= '9') || ('a' <= c <= 'z') || c == '-'
}

/// Whether a text has the shape of a slug: lower case ASCII letters, digits and single hyphens,
/// with no hyphen at either end. The empty text has it.
pub open spec fn is_slug(text: Seq<char>) -> bool {
    &&& forall|i: int| 0 <= i < text.len() ==> slug_char(#[trigger] text[i])
    &&& text.len() > 0 ==> text[0] != '-' && text.last() != '-'
    &&& forall|i: int, j: int|
        0 <= i < text.len() && j == i + 1 && j < text.len() ==> !(#[trigger] text[i] == '-'
            && #[trigger] text[j] == '-')
}

/// Every slug has the shape of a slug.
pub proof fn law_collapse_is_slug(text: Seq<char>)
    ensures
        is_slug(collapse(text)),
    decreases text.len(),
{
    if text.len() > 0 {
        law_collapse_is_slug(text.drop_last());
    }
}

/// Whether the characters from one index up to another are a maximal run of letters and digits.
pub open spec fn is_run(text: Seq<char>, start: int, end: int) -> bool {
    &&& 0 <= start < end <= text.len()
    &&& forall|i: int| start <= i < end ==> alphanumeric(#[trigger] text[i])
    &&& start > 0 ==> !alphanumeric(text[start - 1])
    &&& end < text.len() ==> !alphanumeric(text[end])
}

/// Whether some spans are all the maximal runs of letters and digits of a text, in their order.
pub open spec fn are_runs(text: Seq<char>, spans: Seq<(int, int)>) -> bool {
    &&& forall|i: int|
        0 <= i < spans.len() ==> is_run(text, (#[trigger] spans[i]).0, spans[i].1)
    &&& forall|i: int, j: int|
        0 <= i < j < spans.len() ==> (#[trigger] spans[i]).1 < (#[trigger] spans[j]).0
    &&& forall|start: int, end: int| #[trigger]
        is_run(text, start, end) ==> spans.contains((start, end))
}

/// A span of a text in lower case.
pub open spec fn word(text: Seq<char>, span: (int, int)) -> Seq<char> {
    text.subrange(span.0, span.1).map_values(|c: char| lower(c))
}

/// Some spans of a text in lower case, with one hyphen between any two.
pub open spec fn hyphenated(text: Seq<char>, spans: Seq<(int, int)>) -> Seq<char>
    decreases spans.len(),
{
    if spans.len() == 0 {
        Seq::empty()
    } else if spans.len() == 1 {
        word(text, spans[0])
    } else {
        hyphenated(text, spans.drop_last()).push('-') + word(text, spans.last())
    }
}

/// Spans that lie within the beginning of a text make the same words there.
proof fn lemma_hyphenated_prefix(text: Seq<char>, spans: Seq<(int, int)>)
    requires
        text.len() > 0,
        forall|i: int|
            0 <= i < spans.len() ==> 0 <= (#[trigger] spans[i]).0 <= spans[i].1 < text.len(),
    ensures
        hyphenated(text, spans) == hyphenated(text.drop_last(), spans),
    decreases spans.len(),
{
    let before = text.drop_last();
    if spans.len() > 0 {
        let last = spans[spans.len() - 1];
        assert(text.subrange(last.0, last.1) == before.subrange(last.0, last.1));
        if spans.len() > 1 {
            lemma_hyphenated_prefix(text, spans.drop_last());
        }
    }
}

/// The runs of a text end where the text does if its last character is a letter or digit.
proof fn lemma_last_run(text: Seq<char>, spans: Seq<(int, int)>)
    requires
        are_runs(text, spans),
        text.len() > 0,
        alphanumeric(text.last()),
    ensures
        spans.len() > 0,
        spans.last().1 == text.len(),
{
    let start = lemma_run_at_end(text, text.len() as int);
    let span = (start, text.len() as int);
    assert(is_run(text, span.0, span.1));
    assert(spans.contains(span));
    let k = choose|k: int| 0 <= k < spans.len() && spans[k] == span;
    let n = spans.len() - 1;
    if k < n {
        assert(spans[k].1 < spans[n].0);
        assert(is_run(text, spans[n].0, spans[n].1));
    }
}

/// Where the run of letters and digits starts that stands right before an index.
proof fn lemma_run_at_end(text: Seq<char>, end: int) -> (start: int)
    requires
        0 < end <= text.len(),
        alphanumeric(text[end - 1]),
    ensures
        0 <= start < end,
        forall|i: int| start <= i < end ==> alphanumeric(#[trigger] text[i]),
        start > 0 ==> !alphanumeric(text[start - 1]),
    decreases end,
{
    if end > 1 && alphanumeric(text[end - 2]) {
        lemma_run_at_end(text, end - 1)
    } else {
        end - 1
    }
}

/// Some spans of a text that have words make a text that is not empty.
proof fn lemma_hyphenated_is_not_empty(text: Seq<char>, spans: Seq<(int, int)>)
    requires
        are_runs(text, spans),
    ensures
        hyphenated(text, spans).len() > 0 <==> spans.len() > 0,
{
    if spans.len() > 0 {
        let last = spans[spans.len() - 1];
        assert(is_run(text, last.0, last.1));
        assert(word(text, last).len() == last.1 - last.0);
    }
}

/// The runs of a text without its last character, where that is no letter or digit.
proof fn lemma_runs_before_other(text: Seq<char>, spans: Seq<(int, int)>)
    requires
        text.len() > 0,
        !alphanumeric(text.last()),
    ensures
        are_runs(text, spans) <==> are_runs(text.drop_last(), spans),
{
    let before = text.drop_last();
    let n = before.len() as int;
    assert forall|start: int, end: int| #[trigger]
        is_run(text, start, end) <==> is_run(before, start, end) by {
        if is_run(text, start, end) {
            if end == n + 1 {
                assert(alphanumeric(text[n]));
            }
            assert forall|i: int| start <= i < end implies alphanumeric(#[trigger] before[i]) by {
                assert(alphanumeric(text[i]));
            }
        }
        if is_run(before, start, end) {
            assert forall|i: int| start <= i < end implies alphanumeric(#[trigger] text[i]) by {
                assert(alphanumeric(before[i]));
            }
        }
    }
    if are_runs(text, spans) {
        assert forall|i: int| 0 <= i < spans.len() implies is_run(
            before,
            (#[trigger] spans[i]).0,
            spans[i].1,
        ) by {
            assert(is_run(text, spans[i].0, spans[i].1));
        }
        assert forall|start: int, end: int| #[trigger]
            is_run(before, start, end) implies spans.contains((start, end)) by {
            assert(is_run(text, start, end));
        }
    }
    if are_runs(before, spans) {
        assert forall|i: int| 0 <= i < spans.len() implies is_run(
            text,
            (#[trigger] spans[i]).0,
            spans[i].1,
        ) by {
            assert(is_run(before, spans[i].0, spans[i].1));
        }
        assert forall|start: int, end: int| #[trigger]
            is_run(text, start, end) implies spans.contains((start, end)) by {
            assert(is_run(before, start, end));
        }
    }
}

/// A run that ends before the last character of a text is one of what comes before it.
proof fn lemma_run_within(text: Seq<char>, start: int, end: int)
    requires
        text.len() > 0,
        end < text.len() - 1,
    ensures
        is_run(text, start, end) <==> is_run(text.drop_last(), start, end),
{
    let before = text.drop_last();
    assert(forall|i: int| 0 <= i < before.len() ==> before[i] == text[i]);
    if is_run(text, start, end) {
        assert forall|i: int| start <= i < end implies alphanumeric(#[trigger] before[i]) by {
            assert(alphanumeric(text[i]));
        }
    }
    if is_run(before, start, end) {
        assert forall|i: int| start <= i < end implies alphanumeric(#[trigger] text[i]) by {
            assert(alphanumeric(before[i]));
        }
    }
}

/// The runs of a text without its last character, where that goes on with a run.
proof fn lemma_runs_before_longer(text: Seq<char>, spans: Seq<(int, int)>)
    requires
        text.len() > 1,
        alphanumeric(text.last()),
        alphanumeric(text[text.len() - 2]),
        are_runs(text, spans),
    ensures
        spans.len() > 0,
        spans.last().1 == text.len(),
        0 <= spans.last().0 < text.len() - 1,
        are_runs(
            text.drop_last(),
            spans.update(spans.len() - 1, (spans.last().0, text.len() - 1)),
        ),
{
    let before = text.drop_last();
    let n = before.len() as int;
    lemma_last_run(text, spans);
    let k = spans.len() - 1;
    let start = spans[k].0;
    assert(is_run(text, start, n + 1));
    assert(start < n) by {
        if start == n {
            assert(!alphanumeric(text[start - 1]));
        }
    }
    let shorter = spans.update(k, (start, n));
    assert forall|i: int| 0 <= i < shorter.len() implies is_run(
        before,
        (#[trigger] shorter[i]).0,
        shorter[i].1,
    ) by {
        if i < k {
            assert(is_run(text, spans[i].0, spans[i].1));
            assert(spans[i].1 < spans[k].0);
            lemma_run_within(text, spans[i].0, spans[i].1);
        } else {
            assert forall|j: int| start <= j < n implies alphanumeric(#[trigger] before[j]) by {
                assert(alphanumeric(text[j]));
            }
        }
    }
    assert forall|i: int, j: int| 0 <= i < j < shorter.len() implies (#[trigger] shorter[i]).1 < (
    #[trigger] shorter[j]).0 by {
        assert(spans[i].1 < spans[j].0);
    }
    assert forall|s: int, e: int| #[trigger] is_run(before, s, e) implies shorter.contains(
        (s, e),
    ) by {
        if e < n {
            lemma_run_within(text, s, e);
            assert(is_run(text, s, e));
            assert(spans.contains((s, e)));
            let j = choose|j: int| 0 <= j < spans.len() && spans[j] == (s, e);
            assert(shorter[j] == (s, e));
        } else {
            assert(is_run(text, s, n + 1)) by {
                assert forall|i: int| s <= i < n + 1 implies alphanumeric(#[trigger] text[i]) by {
                    if i < n {
                        assert(alphanumeric(before[i]));
                    }
                }
            }
            assert(spans.contains((s, n + 1)));
            let j = choose|j: int| 0 <= j < spans.len() && spans[j] == (s, n + 1);
            if j < k {
                assert(spans[j].1 < spans[k].0);
            }
            assert(shorter[k] == (s, e));
        }
    }
}

/// The runs of a text without its last character, where that is a run of its own.
proof fn lemma_runs_before_new(text: Seq<char>, spans: Seq<(int, int)>)
    requires
        text.len() > 0,
        alphanumeric(text.last()),
        text.len() > 1 ==> !alphanumeric(text[text.len() - 2]),
        are_runs(text, spans),
    ensures
        spans.len() > 0,
        spans.last() == (text.len() - 1, text.len() as int),
        are_runs(text.drop_last(), spans.drop_last()),
{
    let before = text.drop_last();
    let n = before.len() as int;
    lemma_last_run(text, spans);
    let k = spans.len() - 1;
    assert(is_run(text, spans[k].0, n + 1));
    assert(spans[k].0 == n) by {
        if spans[k].0 < n {
            assert(alphanumeric(text[n - 1]));
        }
    }
    let rest = spans.drop_last();
    assert forall|i: int| 0 <= i < rest.len() implies is_run(
        before,
        (#[trigger] rest[i]).0,
        rest[i].1,
    ) by {
        assert(is_run(text, spans[i].0, spans[i].1));
        assert(spans[i].1 < spans[k].0);
        lemma_run_within(text, spans[i].0, spans[i].1);
    }
    assert forall|i: int, j: int| 0 <= i < j < rest.len() implies (#[trigger] rest[i]).1 < (
    #[trigger] rest[j]).0 by {
        assert(spans[i].1 < spans[j].0);
    }
    assert forall|s: int, e: int| #[trigger] is_run(before, s, e) implies rest.contains((s, e)) by {
        if e == n {
            assert(alphanumeric(before[n - 1]));
        }
        lemma_run_within(text, s, e);
        assert(is_run(text, s, e));
        assert(spans.contains((s, e)));
        let j = choose|j: int| 0 <= j < spans.len() && spans[j] == (s, e);
        assert(rest[j] == (s, e));
    }
}

/// A slug is made of the maximal runs of letters and digits of its text, in their order and in
/// lower case, with one hyphen between any two.
pub proof fn law_collapse_joins_the_runs(text: Seq<char>, spans: Seq<(int, int)>)
    requires
        are_runs(text, spans),
    ensures
        collapse(text) == hyphenated(text, spans),
    decreases text.len(),
{
    if text.len() == 0 {
        if spans.len() > 0 {
            assert(is_run(text, spans[0].0, spans[0].1));
        }
        assert(collapse(text) == hyphenated(text, spans));
    } else {
        let before = text.drop_last();
        let n = before.len() as int;
        let c = text.last();
        if !alphanumeric(c) {
            lemma_runs_before_other(text, spans);
            law_collapse_joins_the_runs(before, spans);
            assert forall|i: int| 0 <= i < spans.len() implies 0 <= (#[trigger] spans[i]).0
                <= spans[i].1 < text.len() by {
                assert(is_run(before, spans[i].0, spans[i].1));
            }
            lemma_hyphenated_prefix(text, spans);
        } else {
            lemma_last_run(text, spans);
            let k = spans.len() - 1;
            let rest = spans.drop_last();
            assert forall|i: int| 0 <= i < rest.len() implies 0 <= (#[trigger] rest[i]).0
                <= rest[i].1 < text.len() by {
                assert(is_run(text, spans[i].0, spans[i].1));
                assert(spans[i].1 < spans[k].0);
                assert(is_run(text, spans[k].0, spans[k].1));
            }
            lemma_hyphenated_prefix(text, rest);
            if n > 0 && alphanumeric(text[n - 1]) {
                lemma_runs_before_longer(text, spans);
                let start = spans[k].0;
                let shorter = spans.update(k, (start, n));
                law_collapse_joins_the_runs(before, shorter);
                assert(shorter.drop_last() == rest);
                assert(word(text, spans[k]) == word(before, (start, n)).push(lower(c)));
                assert(collapse(text) == collapse(before).push(lower(c)));
                assert(hyphenated(text, spans) == hyphenated(before, shorter).push(lower(c)));
            } else {
                lemma_runs_before_new(text, spans);
                law_collapse_joins_the_runs(before, rest);
                lemma_hyphenated_is_not_empty(before, rest);
                let none: Seq<char> = Seq::empty();
                assert(word(text, spans[k]) == none.push(lower(c)));
                if rest.len() == 0 {
                    assert(collapse(before) == none);
                }
                assert(collapse(text) == hyphenated(text, spans));
            }
        }
    }
}

/// Every text has its runs.
pub proof fn law_every_text_has_its_runs(text: Seq<char>)
    ensures
        exists|spans: Seq<(int, int)>| are_runs(text, spans),
    decreases text.len(),
{
    let none: Seq<(int, int)> = Seq::empty();
    if text.len() == 0 {
        assert(are_runs(text, none));
    } else {
        let before = text.drop_last();
        let n = before.len() as int;
        law_every_text_has_its_runs(before);
        let earlier = choose|spans: Seq<(int, int)>| are_runs(before, spans);
        if !alphanumeric(text.last()) {
            lemma_runs_before_other(text, earlier);
            assert(are_runs(text, earlier));
        } else {
            let start = lemma_run_at_end(text, n + 1);
            let kept = if start < n {
                earlier.drop_last()
            } else {
                earlier
            };
            if start < n {
                assert(alphanumeric(text[n - 1]));
                lemma_last_run(before, earlier);
                let k = earlier.len() - 1;
                assert(is_run(before, earlier[k].0, n));
                if earlier[k].0 < start {
                    assert(alphanumeric(before[start - 1]));
                }
                if start < earlier[k].0 {
                    assert(alphanumeric(text[earlier[k].0 - 1]));
                }
            }
            let spans = kept.push((start, n + 1));
            assert forall|i: int| 0 <= i < kept.len() implies (#[trigger] kept[i]).1 < start
                && is_run(before, kept[i].0, kept[i].1) by {
                assert(is_run(before, earlier[i].0, earlier[i].1));
                if start < n {
                    assert(earlier[i].1 < earlier[earlier.len() - 1].0);
                } else if earlier[i].1 == n {
                    assert(alphanumeric(before[n - 1]));
                }
            }
            assert forall|i: int| 0 <= i < spans.len() implies is_run(
                text,
                (#[trigger] spans[i]).0,
                spans[i].1,
            ) by {
                if i < kept.len() {
                    assert(spans[i] == kept[i]);
                    lemma_run_within(text, kept[i].0, kept[i].1);
                }
            }
            assert forall|i: int, j: int| 0 <= i < j < spans.len() implies (#[trigger] spans[i]).1
                < (#[trigger] spans[j]).0 by {
                assert(spans[i] == kept[i]);
                if j < kept.len() {
                    assert(spans[j] == kept[j]);
                    assert(earlier[i].1 < earlier[j].0);
                }
            }
            assert forall|s: int, e: int| #[trigger] is_run(text, s, e) implies spans.contains(
                (s, e),
            ) by {
                if e == n + 1 {
                    if s < start {
                        assert(alphanumeric(text[start - 1]));
                    }
                    if start < s {
                        assert(alphanumeric(text[s - 1]));
                    }
                    assert(spans[kept.len() as int] == (s, e));
                } else if e == n {
                    assert(alphanumeric(text[n]));
                } else {
                    lemma_run_within(text, s, e);
                    assert(earlier.contains((s, e)));
                    let j = choose|j: int| 0 <= j < earlier.len() && earlier[j] == (s, e);
                    assert(spans[j] == (s, e));
                }
            }
            assert(are_runs(text, spans));
        }
    }
}

/// A text that has the shape of a slug is left as it is.
pub proof fn law_slug_is_kept(text: Seq<char>)
    requires
        is_slug(text),
    ensures
        collapse(text) == text,
{
    lemma_slug_prefix(text, text.len() as int);
    assert(text.take(text.len() as int) == text);
}

proof fn lemma_slug_prefix(text: Seq<char>, k: int)
    requires
        is_slug(text),
        0 <= k <= text.len(),
    ensures
        collapse(text.take(k)) == if k > 0 && text[k - 1] == '-' {
            text.take(k - 1)
        } else {
            text.take(k)
        },
    decreases k,
{
    if k > 0 {
        lemma_slug_prefix(text, k - 1);
        assert(text.take(k).drop_last() == text.take(k - 1));
        if k > 1 {
            assert(slug_char(text[k - 2]));
            assert(text.take(k - 2).push(text[k - 2]) == text.take(k - 1));
        }
        assert(slug_char(text[k - 1]));
        assert(text.take(k - 1).push(text[k - 1]) == text.take(k));
    } else {
        assert(text.take(0) == Seq::<char>::empty());
    }
}

fn is_alphanumeric(c: char) -> (r: bool)
    ensures
        r == alphanumeric(c),
{
    ('0' <= c && c <= '9') || ('A' <= c && c <= 'Z') || ('a' <= c && c <= 'z')
}

fn to_lower(c: char) -> (r: char)
    requires
        alphanumeric(c),
    ensures
        r == lower(c),
{
    if 'A' <= c && c <= 'Z' {
        (c as u8 + 32) as char
    } else {
        c
    }
}

fn unstroke(c: char) -> (r: char)
    ensures
        r == unstroked(c),
{
    if c == '\u{111}' {
        'd'
    } else if c == '\u{110}' {
        'D'
    } else {
        c
    }
}

/// Writes a text that has lost its combining marks as a slug: the Vietnamese d with stroke as a
/// plain d, letters and digits in lower case, and single hyphens for what stands between them.
pub fn hyphenate(text: &str) -> (slug: String)
    ensures
        slug@ == collapse(text@.map_values(|c: char| unstroked(c))),
        is_slug(slug@),
{
    let mut slug = String::new();
    let mut started = false;
    let mut gap = false;
    let ghost plain = text@.map_values(|c: char| unstroked(c));
    for c in it: text.chars()
        invariant
            it.seq() == text@,
            plain == text@.map_values(|c: char| unstroked(c)),
            slug@ == collapse(plain.take(it.index())),
            started == (slug@.len() > 0),
            gap == (it.index() > 0 && !alphanumeric(plain[it.index() - 1])),
    {
        let letter = unstroke(c);
        proof {
            assert(plain.take(it.index() + 1).drop_last() == plain.take(it.index()));
        }
        if is_alphanumeric(letter) {
            if gap && started {
                slug.push('-');
            }
            slug.push(to_lower(letter));
            started = true;
            gap = false;
        } else {
            gap = true;
        }
    }
    proof {
        assert(plain.take(plain.len() as int) == plain);
        law_collapse_is_slug(plain);
    }
    slug
}

/// The slug of a display name: the name decomposed, without its combining marks, hyphenated.
pub fn slugify(name: &str) -> (slug: String)
    ensures
        slug@ == slug_of(name@),
        is_slug(slug@),
        is_ascii_chars(name@) ==> slug@ == collapse(name@),
        is_slug(name@) ==> slug@ == name@,
{
    let decomposed = decompose(name);
    let mut letters = String::new();
    let ghost kept = |c: char| !is_mark(c);
    for c in it: decomposed.chars()
        invariant
            it.seq() == decomposed@,
            kept == (|c: char| !is_mark(c)),
            letters@ == decomposed@.take(it.index()).filter(kept),
            is_ascii_chars(decomposed@) ==> letters@ == decomposed@.take(it.index()),
    {
        proof {
            assert(decomposed@.take(it.index() + 1) == decomposed@.take(it.index()).push(c));
            decomposed@.take(it.index()).lemma_filter_push(c, kept);
            assert(is_ascii_chars(decomposed@) ==> c <= '\u{7f}');
        }
        if !combining_mark(c) {
            letters.push(c);
        }
    }
    proof {
        assert(decomposed@.take(decomposed@.len() as int) == decomposed@);
        if is_slug(name@) {
            assert forall|i: int| 0 <= i < name@.len() implies '\0' <= #[trigger] name@[i]
                <= '\u{7f}' by {
                assert(slug_char(name@[i]));
            }
            law_slug_is_kept(name@);
        }
        if is_ascii_chars(name@) {
            assert(letters@.map_values(|c: char| unstroked(c)) == name@);
        }
    }
    hyphenate(letters.as_str())
}

// ---------------------------------------------------------------------------
// Laws of letters
// ---------------------------------------------------------------------------

/// Whether a character is an ASCII digit, capital letter or small letter, by its code point.
pub open spec fn letter_or_digit(c: char) -> bool {
    let code = c as int;
    48 <= code <= 57 || 65 <= code <= 90 || 97 <= code <= 122
}

/// Whether a character is the small form of another: 32 code points on for a capital letter, and
/// the same character otherwise.
pub open spec fn is_small_form(small: char, c: char) -> bool {
    if 65 <= c as int <= 90 {
        small as int == c as int + 32
    } else {
        small == c
    }
}

/// Whether a text is another one with a plain d for every d with stroke, and is otherwise the same.
pub open spec fn is_without_strokes(plain: Seq<char>, text: Seq<char>) -> bool {
    &&& plain.len() == text.len()
    &&& forall|i: int|
        0 <= i < text.len() ==> (#[trigger] plain[i]) == if text[i] as int == 0x111 {
            'd'
        } else if text[i] as int == 0x110 {
            'D'
        } else {
            text[i]
        }
}

/// The characters that make up a slug are the ASCII letters and digits, and only those; they go
/// into it in their small form.
pub proof fn law_slugs_are_made_of_letters_and_digits(c: char)
    ensures
        alphanumeric(c) <==> letter_or_digit(c),
        is_small_form(lower(c), c),
{
}

/// A slug spells the letters and digits of its text, every one of them, in their order and in their
/// small form; it adds nothing to them but hyphens.
pub proof fn law_slug_spells_every_letter(text: Seq<char>)
    ensures
        ({
            let letters = collapse(text).filter(|c: char| c != '-');
            let kept = text.filter(|c: char| letter_or_digit(c));
            &&& letters.len() == kept.len()
            &&& forall|i: int|
                0 <= i < kept.len() ==> is_small_form(#[trigger] letters[i], kept[i])
        }),
    decreases text.len(),
{
    let plain = |c: char| c != '-';
    let word = |c: char| letter_or_digit(c);
    reveal(Seq::filter);
    if text.len() > 0 {
        let before = text.drop_last();
        let c = text.last();
        law_slug_spells_every_letter(before);
        law_slugs_are_made_of_letters_and_digits(c);
        assert(text == before.push(c));
        before.lemma_filter_push(c, word);
        let slug = collapse(before);
        slug.lemma_filter_push('-', plain);
        slug.lemma_filter_push(lower(c), plain);
        slug.push('-').lemma_filter_push(lower(c), plain);
        if alphanumeric(c) {
            assert(lower(c) != '-');
            assert(collapse(text).filter(plain) == slug.filter(plain).push(lower(c)));
        }
    } else {
        assert(collapse(text) == Seq::<char>::empty());
        assert(Seq::<char>::empty().filter(plain) == Seq::<char>::empty());
        assert(text == Seq::<char>::empty());
        assert(text.filter(word) == Seq::<char>::empty());
    }
}

/// A d with stroke counts as the letter d: a text makes the same slug as one that has a plain d in
/// the place of each, and every other character counts as itself.
pub proof fn law_stroked_letters_count_as_plain(text: Seq<char>, plain: Seq<char>)
    requires
        is_without_strokes(plain, text),
    ensures
        collapse(text.map_values(|c: char| unstroked(c))) == collapse(plain),
        collapse(text.map_values(|c: char| unstroked(c))) == collapse(
            plain.map_values(|c: char| unstroked(c)),
        ),
        text == seq!['\u{111}'] ==> collapse(text.map_values(|c: char| unstroked(c))) == seq!['d'],
        text == seq!['\u{110}'] ==> collapse(text.map_values(|c: char| unstroked(c))) == seq!['d'],
{
    assert(text.map_values(|c: char| unstroked(c)) == plain);
    assert(plain.map_values(|c: char| unstroked(c)) == plain);
    if text == seq!['\u{111}'] || text == seq!['\u{110}'] {
        let none: Seq<char> = Seq::empty();
        assert(plain.drop_last() == none);
        assert(collapse(none) == none);
        assert(plain[0] == 'd' || plain[0] == 'D');
        assert(collapse(plain) == none.push('d'));
    }
}

/// The slug of a name is that of its decomposition without the combining marks, a plain d standing
/// for every d with stroke. Names that differ in their marks alone have the same slug.
pub proof fn law_slug_passes_over_marks(name: Seq<char>, plain: Seq<char>)
    requires
        is_without_strokes(plain, nfkd_form(name).filter(|c: char| !is_mark(c))),
    ensures
        slug_of(name) == collapse(plain),
{
    let text = nfkd_form(name).filter(|c: char| !is_mark(c));
    law_stroked_letters_count_as_plain(text, plain);
}

} // verus!
