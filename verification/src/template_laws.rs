//! How a chat template is read: words, numbers and comments as far as they go, and the text around
//! the tags as it is.
use crate::template;
use crate::template::Token;
use crate::utils::text;
use vstd::prelude::*;

verus! {

/// A word takes in what may go on with it, as far as that goes, and nothing else.
pub proof fn a_word_goes_as_far_as_it_can(s: Seq<char>, i: int)
    requires
        0 <= i <= s.len(),
    ensures
        ({
            let end = template::word_end(s, i);
            &&& i <= end <= s.len()
            &&& forall|k: int| i <= k < end ==> template::is_word_char(#[trigger] s[k])
            &&& end < s.len() ==> !template::is_word_char(s[end])
        }),
    decreases s.len() - i,
{
    if i < s.len() && template::is_word_char(s[i]) {
        a_word_goes_as_far_as_it_can(s, i + 1);
    }
}

/// A number takes in digits as far as they go, and nothing else.
pub proof fn a_number_goes_as_far_as_it_can(s: Seq<char>, i: int)
    requires
        0 <= i <= s.len(),
    ensures
        ({
            let end = template::digits_end(s, i);
            &&& i <= end <= s.len()
            &&& forall|k: int| i <= k < end ==> text::is_digit(#[trigger] s[k])
            &&& end < s.len() ==> !text::is_digit(s[end])
        }),
    decreases s.len() - i,
{
    if i < s.len() && text::is_digit(s[i]) {
        a_number_goes_as_far_as_it_can(s, i + 1);
    }
}

/// A text in quotes without a backslash ends at the first quote, and is not closed where there is
/// none.
pub proof fn a_text_ends_at_its_quote(s: Seq<char>, i: int, quote: char, p: int)
    requires
        0 <= i <= p <= s.len(),
        quote != '\\',
        p < s.len() ==> s[p] == quote,
        forall|k: int| i <= k < p ==> #[trigger] s[k] != quote && s[k] != '\\',
    ensures
        template::text_end(s, i, quote) == if p < s.len() {
            Some(p + 1)
        } else {
            None
        },
    decreases p - i,
{
    if i < p {
        assert(s[i] != quote && s[i] != '\\');
        a_text_ends_at_its_quote(s, i + 1, quote, p);
    }
}

/// A backslash takes the quote behind it into the text.
pub proof fn a_backslash_keeps_a_quote_in(s: Seq<char>, i: int, quote: char)
    requires
        0 <= i,
        i + 1 < s.len(),
        quote != '\\',
        s[i] == '\\',
    ensures
        template::text_end(s, i, quote) == template::text_end(s, i + 2, quote),
{
}

/// A comment ends at the first sign that ends it, and not at all where there is none.
pub proof fn a_comment_ends_at_its_first_end(s: Seq<char>, i: int, p: int)
    requires
        0 <= i <= p <= s.len(),
        p < s.len() ==> s[p] == '#' && p + 1 < s.len() && s[p + 1] == '}',
        forall|k: int|
            i <= k < p && k + 1 < s.len() ==> !(#[trigger] s[k] == '#' && s[k + 1] == '}'),
    ensures
        template::comment_end(s, i) == if p < s.len() {
            Some(p + 2)
        } else {
            None
        },
    decreases p - i,
{
    reveal_strlit("#}");
    if i < p {
        assert(!text::occurs_at(s, "#}"@, i)) by {
            if text::occurs_at(s, "#}"@, i) {
                assert(s[i] == s.subrange(i, i + 2)[0]);
                assert(s[i + 1] == s.subrange(i, i + 2)[1]);
            }
        }
        a_comment_ends_at_its_first_end(s, i + 1, p);
    } else if p < s.len() {
        assert(s.subrange(p, p + 2) =~= "#}"@);
        assert(text::occurs_at(s, "#}"@, p));
    }
}

proof fn lemma_text_is_plain(s: Seq<char>, i: int, branches: nat, loops: nat)
    requires
        0 <= i,
        s.len() <= template::MAX_TEMPLATE,
        forall|k: int| i <= k < s.len() ==> #[trigger] s[k] != '{',
    ensures
        template::is_plain_from(s, i, branches, loops),
    decreases s.len() - i,
{
    reveal_strlit("{#");
    reveal_strlit("{{");
    reveal_strlit("{%");
    if i < s.len() {
        assert(s[i] != '{');
        if i + 2 <= s.len() {
            assert(s.subrange(i, i + 2)[0] == s[i]);
        }
        assert("{#"@[0] == '{' && "{{"@[0] == '{' && "{%"@[0] == '{');
        lemma_text_is_plain(s, i + 1, branches, loops);
    }
}

/// A text without tags is a plain template, up to the longest; a longer one is none, whatever it is.
pub proof fn a_text_without_tags_is_plain(s: Seq<char>)
    ensures
        s.len() <= template::MAX_TEMPLATE && (forall|k: int|
            0 <= k < s.len() ==> #[trigger] s[k] != '{') ==> template::is_plain_template(s),
        s.len() > template::MAX_TEMPLATE ==> !template::is_plain_template(s),
{
    if s.len() <= template::MAX_TEMPLATE && (forall|k: int|
        0 <= k < s.len() ==> #[trigger] s[k] != '{') {
        lemma_text_is_plain(s, 0, 0, 0);
    }
}

/// A tag opens at place `i`, and these are its tokens and its end.
pub open spec fn is_tag_at(s: Seq<char>, i: int, block: bool, tokens: Seq<Token>, end: int) -> bool {
    &&& 0 <= i
    &&& i + 1 < s.len() <= template::MAX_TEMPLATE
    &&& s[i] == '{'
    &&& s[i + 1] == if block {
        '%'
    } else {
        '{'
    }
    &&& template::read_from(s, template::inside(s, i), block, 0, Seq::empty()) == Some(
        (tokens, end),
    )
}

proof fn lemma_tag(s: Seq<char>, i: int, block: bool, tokens: Seq<Token>, end: int)
    requires
        is_tag_at(s, i, block, tokens, end),
    ensures
        !text::occurs_at(s, "{#"@, i),
        text::occurs_at(s, "{%"@, i) == block,
        text::occurs_at(s, "{{"@, i) == !block,
{
    reveal_strlit("{#");
    reveal_strlit("{{");
    reveal_strlit("{%");
    let there = s.subrange(i, i + 2);
    assert(there[0] == s[i] && there[1] == s[i + 1]);
    assert("{#"@[1] == '#' && "{{"@[1] == '{' && "{%"@[1] == '%');
    if block {
        assert(there =~= "{%"@);
    } else {
        assert(there =~= "{{"@);
    }
}

/// The words that a template may put in front of a bracket: operators, the few methods that take a
/// text or nothing, what gives up, and what makes the namespace.
pub open spec fn may_stand_before_a_bracket(word: Seq<char>) -> bool {
    ||| word == "if"@ || word == "elif"@ || word == "else"@ || word == "not"@ || word == "and"@
    ||| word == "or"@ || word == "in"@
    ||| word == "startswith"@ || word == "endswith"@ || word == "split"@ || word == "strip"@
    ||| word == "lstrip"@ || word == "rstrip"@ || word == "upper"@ || word == "lower"@
    ||| word == "raise_exception"@ || word == "namespace"@
}

/// In a plain template no tag calls anything but a few harmless words, none names a function that
/// could make it run long, and a statement is one of a few. What stands behind a tag is plain too.
pub proof fn a_plain_tag_calls_nothing_else(
    s: Seq<char>,
    i: int,
    branches: nat,
    loops: nat,
    block: bool,
    tokens: Seq<Token>,
    end: int,
    k: int,
)
    requires
        template::is_plain_from(s, i, branches, loops),
        is_tag_at(s, i, block, tokens, end),
        0 <= k < tokens.len(),
        tokens[k] is Word,
    ensures
        ({
            let word = template::word_at(s, tokens, k);
            &&& k + 1 < tokens.len() && tokens[k + 1] == Token::Mark('(')
                ==> may_stand_before_a_bracket(word)
            &&& word != "range"@ && word != "lipsum"@ && word != "cycler"@ && word != "joiner"@
            &&& word != "dict"@ && word != "debug"@ && word != "randrange"@ && word != "now"@
            &&& word != "self"@ && word != "super"@ && word != "caller"@ && word != "recursive"@
            &&& word != "cycle"@ && word != "changed"@
            &&& block && k == 0 ==> word == "if"@ || word == "elif"@ || word == "else"@ || word
                == "endif"@ || word == "for"@ || word == "endfor"@ || word == "set"@
            &&& exists|more: nat, inner: nat| #[trigger]
                template::is_plain_from(s, end, more, inner) && more <= branches + 1 && inner
                    <= loops + 1
        }),
{
    lemma_tag(s, i, block, tokens, end);
    template::lemma_tag_advances(s, template::inside(s, i), block, 0, Seq::empty());
    let first = template::word_at(s, tokens, 0);
    assert(template::is_plain_tag(s, tokens, block));
    let set = block && first == "set"@;
    let looped = block && first == "for"@;
    assert(template::is_plain_at(s, tokens, k, set, looped));
    let next = template::behind(first, block, branches, loops);
    assert(next is Some);
    assert(template::is_plain_from(s, end, (next->0).0, (next->0).1));
}

/// In a plain template a loop is opened only where fewer than the most are open, and conditions and
/// loops only while there are fewer than the most.
pub proof fn loops_and_conditions_are_few(
    s: Seq<char>,
    i: int,
    branches: nat,
    loops: nat,
    tokens: Seq<Token>,
    end: int,
)
    requires
        template::is_plain_from(s, i, branches, loops),
        is_tag_at(s, i, true, tokens, end),
    ensures
        template::word_at(s, tokens, 0) == "for"@ ==> loops < 2 && branches < 128
            && template::is_plain_from(s, end, branches + 1, loops + 1),
        template::word_at(s, tokens, 0) == "if"@ || template::word_at(s, tokens, 0) == "elif"@
            ==> branches < 128 && template::is_plain_from(s, end, branches + 1, loops),
{
    lemma_tag(s, i, true, tokens, end);
    template::lemma_tag_advances(s, template::inside(s, i), true, 0, Seq::empty());
    reveal_strlit("for");
    reveal_strlit("if");
    reveal_strlit("elif");
    assert("for"@.len() == 3 && "if"@.len() == 2 && "elif"@.len() == 4);
}

/// A template that is plain behind some conditions and loops is plain behind fewer.
pub proof fn fewer_conditions_make_no_template_worse(
    s: Seq<char>,
    i: int,
    branches: nat,
    loops: nat,
    less: nat,
    fewer: nat,
)
    requires
        template::is_plain_from(s, i, branches, loops),
        less <= branches,
        fewer <= loops,
    ensures
        template::is_plain_from(s, i, less, fewer),
    decreases s.len() - i,
{
    if i < 0 || i >= s.len() || s.len() > template::MAX_TEMPLATE {
    } else if text::occurs_at(s, "{#"@, i) {
        template::lemma_comment_advances(s, template::inside(s, i));
        if let Some(end) = template::comment_end(s, template::inside(s, i)) {
            fewer_conditions_make_no_template_worse(s, end, branches, loops, less, fewer);
        }
    } else if text::occurs_at(s, "{{"@, i) || text::occurs_at(s, "{%"@, i) {
        let block = text::occurs_at(s, "{%"@, i);
        template::lemma_tag_advances(s, template::inside(s, i), block, 0, Seq::empty());
        if let Some((tokens, end)) = template::read_from(
            s,
            template::inside(s, i),
            block,
            0,
            Seq::empty(),
        ) {
            let first = template::word_at(s, tokens, 0);
            let next = template::behind(first, block, branches, loops);
            let now = template::behind(first, block, less, fewer);
            assert(next is Some);
            assert(now is Some);
            assert((now->0).0 <= (next->0).0 && (now->0).1 <= (next->0).1);
            fewer_conditions_make_no_template_worse(
                s,
                end,
                (next->0).0,
                (next->0).1,
                (now->0).0,
                (now->0).1,
            );
        }
    } else {
        fewer_conditions_make_no_template_worse(s, i + 1, branches, loops, less, fewer);
    }
}

} // verus!
