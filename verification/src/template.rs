//! Chat templates that can be rendered for any messages: programs of a plain kind, made of
//! conditions, loops, assignments and printed values, which take a bounded number of steps for
//! each message and call nothing but a few harmless methods.
use crate::utils::text;
use vstd::prelude::*;

verus! {

/// The most characters of a template.
pub const MAX_TEMPLATE: usize = 0x8000;

/// The most tokens of a tag.
pub const MAX_TAG: usize = 128;

/// The most conditions and loops of a template.
pub const MAX_BRANCHES: usize = 128;

/// The most loops that stand inside each other.
pub const MAX_LOOPS: usize = 2;

/// A token of a tag.
#[derive(Clone, Copy)]
pub enum Token {
    /// The word that stands in the template from `start` to `end`.
    Word { start: usize, end: usize },
    /// A number of a few digits.
    Number,
    /// A text in quotes.
    Text,
    /// The index that turns a list round.
    Reversal,
    /// A mark of one character.
    Mark(char),
}

/// `c` may stand between tokens.
pub open spec fn is_space(c: char) -> bool {
    c == ' ' || c == '\t' || c == '\n' || c == '\r' || c == '\u{c}'
}

/// A word may start with `c`.
pub open spec fn is_letter(c: char) -> bool {
    'a' <= c <= 'z' || 'A' <= c <= 'Z' || c == '_'
}

/// A word may go on with `c`.
pub open spec fn is_word_char(c: char) -> bool {
    is_letter(c) || text::is_digit(c)
}

/// `c` is a token of its own.
pub open spec fn is_mark(c: char) -> bool {
    ||| c == '+' || c == '-' || c == '~' || c == '%' || c == '.' || c == ',' || c == '|'
    ||| c == '=' || c == '!' || c == '<' || c == '>'
    ||| c == '(' || c == ')' || c == '[' || c == ']'
}

/// Where the word ends that goes on at `i`.
pub open spec fn word_end(s: Seq<char>, i: int) -> int
    decreases s.len() - i,
{
    if 0 <= i < s.len() && is_word_char(s[i]) {
        word_end(s, i + 1)
    } else {
        i
    }
}

/// Where the digits end that go on at `i`.
pub open spec fn digits_end(s: Seq<char>, i: int) -> int
    decreases s.len() - i,
{
    if 0 <= i < s.len() && text::is_digit(s[i]) {
        digits_end(s, i + 1)
    } else {
        i
    }
}

/// Where the text in quotes ends that goes on at `i`. A backslash takes the quote behind it in.
pub open spec fn text_end(s: Seq<char>, i: int, quote: char) -> Option<int>
    decreases s.len() + 1 - i,
{
    if i < 0 || i >= s.len() {
        None
    } else if s[i] == quote {
        Some(i + 1)
    } else if s[i] == '\\' {
        text_end(s, i + 2, quote)
    } else {
        text_end(s, i + 1, quote)
    }
}

/// The number ends at `end`, and is one of a few digits without a fraction.
pub open spec fn is_number(s: Seq<char>, i: int, end: int) -> bool {
    &&& end - i <= 9
    &&& end < s.len() ==> s[end] != '.' && !is_word_char(s[end])
}

/// The token at `i`, and where it ends.
pub open spec fn token_at(s: Seq<char>, i: int) -> Option<(Token, int)> {
    if is_letter(s[i]) {
        let end = word_end(s, i);
        Some((Token::Word { start: i as usize, end: end as usize }, end))
    } else if text::is_digit(s[i]) {
        let end = digits_end(s, i);
        if is_number(s, i, end) {
            Some((Token::Number, end))
        } else {
            None
        }
    } else if s[i] == '\'' || s[i] == '"' {
        match text_end(s, i + 1, s[i]) {
            Some(end) => Some((Token::Text, end)),
            None => None,
        }
    } else if text::occurs_at(s, "[::-1]"@, i) {
        Some((Token::Reversal, i + 6))
    } else if is_mark(s[i]) {
        Some((Token::Mark(s[i]), i + 1))
    } else {
        None
    }
}

/// What closes a tag.
pub open spec fn closing(block: bool) -> Seq<char> {
    if block {
        "%}"@
    } else {
        "}}"@
    }
}

/// Where the tag ends that is closed at `i`, if it is. A sign may stand in front.
pub open spec fn closed_at(s: Seq<char>, i: int, block: bool) -> Option<int> {
    if text::occurs_at(s, closing(block), i) {
        Some(i + 2)
    } else if (s[i] == '-' || s[i] == '+') && text::occurs_at(s, closing(block), i + 1) {
        Some(i + 3)
    } else {
        None
    }
}

/// How many brackets are open behind a token, if it closes none that is not.
pub open spec fn open_behind(token: Token, open: nat) -> Option<nat> {
    match token {
        Token::Mark(c) => if c == '(' || c == '[' {
            Some(open + 1)
        } else if c == ')' || c == ']' {
            if open == 0 {
                None
            } else {
                Some((open - 1) as nat)
            }
        } else {
            Some(open)
        },
        _ => Some(open),
    }
}

/// The tokens of the tag that goes on at `i`, behind those that were read and with some brackets
/// open, and where it ends.
pub open spec fn read_from(
    s: Seq<char>,
    i: int,
    block: bool,
    open: nat,
    read: Seq<Token>,
) -> Option<(Seq<Token>, int)>
    decreases s.len() - i,
{
    if i < 0 || i >= s.len() {
        None
    } else if is_space(s[i]) {
        read_from(s, i + 1, block, open, read)
    } else if open == 0 && closed_at(s, i, block) is Some {
        Some((read, closed_at(s, i, block)->0))
    } else if read.len() >= MAX_TAG {
        None
    } else {
        proof {
            lemma_token_advances(s, i);
        }
        match token_at(s, i) {
            Some((token, end)) => match open_behind(token, open) {
                Some(more) => read_from(s, end, block, more, read.push(token)),
                None => None,
            },
            None => None,
        }
    }
}

/// Where the comment ends that goes on at `i`.
pub open spec fn comment_end(s: Seq<char>, i: int) -> Option<int>
    decreases s.len() - i,
{
    if i < 0 || i >= s.len() {
        None
    } else if text::occurs_at(s, "#}"@, i) {
        Some(i + 2)
    } else {
        comment_end(s, i + 1)
    }
}

/// Where the inside of what opens at `i` starts. A sign may stand in front.
pub open spec fn inside(s: Seq<char>, i: int) -> int {
    if i + 2 < s.len() && (s[i + 2] == '-' || s[i + 2] == '+') {
        i + 3
    } else {
        i + 2
    }
}

proof fn lemma_word_end(s: Seq<char>, i: int)
    requires
        0 <= i <= s.len(),
    ensures
        i <= word_end(s, i) <= s.len(),
    decreases s.len() - i,
{
    if i < s.len() && is_word_char(s[i]) {
        lemma_word_end(s, i + 1);
    }
}

proof fn lemma_digits_end(s: Seq<char>, i: int)
    requires
        0 <= i <= s.len(),
    ensures
        i <= digits_end(s, i) <= s.len(),
    decreases s.len() - i,
{
    if i < s.len() && text::is_digit(s[i]) {
        lemma_digits_end(s, i + 1);
    }
}

proof fn lemma_text_end(s: Seq<char>, i: int, quote: char)
    requires
        0 <= i,
    ensures
        text_end(s, i, quote) matches Some(end) ==> i < end <= s.len(),
    decreases s.len() + 1 - i,
{
    if i < s.len() && s[i] != quote {
        lemma_text_end(s, i + 1, quote);
        lemma_text_end(s, i + 2, quote);
    }
}

/// A token ends behind its start, and within the template.
pub proof fn lemma_token_advances(s: Seq<char>, i: int)
    requires
        0 <= i < s.len(),
    ensures
        token_at(s, i) matches Some((token, end)) ==> i < end <= s.len(),
{
    reveal_strlit("[::-1]");
    lemma_word_end(s, i + 1);
    lemma_digits_end(s, i + 1);
    lemma_text_end(s, i + 1, s[i]);
}

/// A tag ends behind its start, and within the template. Its words are in the template.
pub proof fn lemma_tag_advances(s: Seq<char>, i: int, block: bool, open: nat, read: Seq<Token>)
    requires
        0 <= i,
        s.len() <= MAX_TEMPLATE,
        read.len() <= MAX_TAG,
        are_within(read, s.len()),
    ensures
        read_from(s, i, block, open, read) matches Some((tokens, end)) ==> i < end <= s.len()
            && tokens.len() <= MAX_TAG && are_within(tokens, s.len()),
    decreases s.len() - i,
{
    reveal_strlit("%}");
    reveal_strlit("}}");
    if i >= s.len() {
    } else if is_space(s[i]) {
        lemma_tag_advances(s, i + 1, block, open, read);
    } else if open == 0 && closed_at(s, i, block) is Some {
    } else if read.len() >= MAX_TAG {
    } else {
        lemma_token_advances(s, i);
        match token_at(s, i) {
            Some((token, end)) => {
                lemma_word_end(s, i);
                match open_behind(token, open) {
                    Some(more) => {
                        lemma_tag_advances(s, end, block, more, read.push(token));
                    },
                    None => {},
                }
            },
            None => {},
        }
    }
}

/// A comment ends behind its start, and within the template.
pub proof fn lemma_comment_advances(s: Seq<char>, i: int)
    requires
        0 <= i,
    ensures
        comment_end(s, i) matches Some(end) ==> i < end <= s.len(),
    decreases s.len() - i,
{
    reveal_strlit("#}");
    if i < s.len() {
        lemma_comment_advances(s, i + 1);
    }
}

/// The words stand within so many characters.
pub open spec fn are_within(tokens: Seq<Token>, n: nat) -> bool {
    forall|i: int|
        0 <= i < tokens.len() ==> (#[trigger] tokens[i] matches Token::Word { start, end }
            ==> start <= end <= n)
}

/// The word that token `i` is, or nothing.
pub open spec fn word_at(s: Seq<char>, tokens: Seq<Token>, i: int) -> Seq<char> {
    if 0 <= i < tokens.len() {
        match tokens[i] {
            Token::Word { start, end } => s.subrange(start as int, end as int),
            _ => Seq::empty(),
        }
    } else {
        Seq::empty()
    }
}

/// Token `i` is a mark.
pub open spec fn mark_at(tokens: Seq<Token>, i: int, c: char) -> bool {
    0 <= i < tokens.len() && tokens[i] == Token::Mark(c)
}

/// A tag with a statement starts with the word.
pub open spec fn is_statement(word: Seq<char>) -> bool {
    ||| word == "if"@ || word == "elif"@ || word == "else"@ || word == "endif"@
    ||| word == "for"@ || word == "endfor"@ || word == "set"@
}

/// The word joins two values, or stands in front of one.
pub open spec fn is_operator(word: Seq<char>) -> bool {
    ||| word == "if"@ || word == "elif"@ || word == "else"@
    ||| word == "not"@ || word == "and"@ || word == "or"@ || word == "in"@
}

/// The word names a filter that can be applied to any value.
pub open spec fn is_filter(word: Seq<char>) -> bool {
    ||| word == "length"@ || word == "trim"@ || word == "tojson"@
    ||| word == "upper"@ || word == "lower"@ || word == "string"@
}

/// The word names a test of what a value is.
pub open spec fn is_test(word: Seq<char>) -> bool {
    ||| word == "defined"@ || word == "undefined"@ || word == "none"@
    ||| word == "true"@ || word == "false"@ || word == "boolean"@ || word == "number"@
    ||| word == "string"@ || word == "sequence"@ || word == "mapping"@ || word == "iterable"@
}

/// The word names a method that can be called with a text or with nothing.
pub open spec fn is_method(word: Seq<char>) -> bool {
    ||| word == "startswith"@ || word == "endswith"@ || word == "split"@
    ||| word == "strip"@ || word == "lstrip"@ || word == "rstrip"@
    ||| word == "upper"@ || word == "lower"@
}

/// The word names something that can be called, and is not, or makes a loop call itself.
pub open spec fn is_function(word: Seq<char>) -> bool {
    ||| word == "range"@ || word == "dict"@ || word == "debug"@ || word == "cycler"@
    ||| word == "joiner"@ || word == "lipsum"@ || word == "randrange"@ || word == "now"@
    ||| word == "self"@ || word == "super"@ || word == "caller"@ || word == "recursive"@
    ||| word == "cycle"@ || word == "changed"@
}

/// Between the brackets that end at `i` or behind stands a text or nothing.
pub open spec fn takes_a_text(tokens: Seq<Token>, i: int) -> bool {
    ||| mark_at(tokens, i, ')')
    ||| 0 <= i < tokens.len() && tokens[i] == Token::Text && mark_at(tokens, i + 1, ')')
}

/// The tag makes the namespace `ns`.
pub open spec fn makes_namespace(s: Seq<char>, tokens: Seq<Token>) -> bool {
    &&& word_at(s, tokens, 1) == "ns"@
    &&& mark_at(tokens, 2, '=')
    &&& word_at(s, tokens, 3) == "namespace"@
    &&& mark_at(tokens, 4, '(')
}

/// Word `i` may stand where it does, in a tag that sets a variable (`set`), runs a loop (`loops`)
/// or does neither. A namespace is only made under its name, and only its fields are used. The
/// messages keep their name. A filter, a test or a method is a plain one. A function is called only
/// to give up, with a text.
pub open spec fn is_plain_word(
    s: Seq<char>,
    tokens: Seq<Token>,
    i: int,
    set: bool,
    loops: bool,
) -> bool {
    let word = word_at(s, tokens, i);
    let field = mark_at(tokens, i - 1, '.');
    let called = mark_at(tokens, i + 1, '(');
    let makes = set && makes_namespace(s, tokens);
    &&& !is_function(word)
    &&& word == "namespace"@ ==> makes && i == 3
    &&& word == "ns"@ && !field ==> mark_at(tokens, i + 1, '.') || makes && i == 1
    &&& word == "messages"@ && i == 1 ==> !set && !loops
    &&& mark_at(tokens, i - 1, '|') ==> if set {
        word == "length"@
    } else {
        is_filter(word)
    }
    &&& word_at(s, tokens, i - 1) == "is"@ ==> word == "not"@ || is_test(word)
    &&& word_at(s, tokens, i - 1) == "not"@ && word_at(s, tokens, i - 2) == "is"@ ==> is_test(word)
    &&& called ==> {
        ||| word == "namespace"@
        ||| !field && is_operator(word)
        ||| !field && word == "raise_exception"@ && takes_a_text(tokens, i + 2)
        ||| field && is_method(word) && takes_a_text(tokens, i + 2)
    }
}

/// Mark `i` may stand where it does. A bracket calls no value, and makes no list. A variable is
/// not set to more than it is made of, and a loop has one variable.
pub open spec fn is_plain_mark(
    s: Seq<char>,
    tokens: Seq<Token>,
    i: int,
    c: char,
    set: bool,
    loops: bool,
) -> bool {
    let makes = set && makes_namespace(s, tokens);
    if c == '(' {
        &&& !mark_at(tokens, i - 1, ')') && !mark_at(tokens, i - 1, ']')
        &&& i > 0 ==> tokens[i - 1] is Word || tokens[i - 1] is Mark
        &&& makes ==> i == 4
    } else if c == '[' {
        ||| mark_at(tokens, i - 1, ')') || mark_at(tokens, i - 1, ']')
        ||| i > 0 && tokens[i - 1] is Word && !is_operator(word_at(s, tokens, i - 1))
    } else if c == ',' {
        !loops && (set ==> makes)
    } else if c == '+' || c == '~' {
        !set
    } else {
        true
    }
}

/// Token `i` may stand where it does. Only the messages are turned round.
pub open spec fn is_plain_at(
    s: Seq<char>,
    tokens: Seq<Token>,
    i: int,
    set: bool,
    loops: bool,
) -> bool {
    match tokens[i] {
        Token::Word { .. } => is_plain_word(s, tokens, i, set, loops),
        Token::Mark(c) => is_plain_mark(s, tokens, i, c, set, loops),
        Token::Reversal => word_at(s, tokens, i - 1) == "messages"@ && !mark_at(tokens, i - 2, '.')
            && !set,
        _ => true,
    }
}

/// Each token may stand where it does.
pub open spec fn are_plain(s: Seq<char>, tokens: Seq<Token>, set: bool, loops: bool) -> bool {
    forall|i: int| 0 <= i < tokens.len() ==> #[trigger] is_plain_at(s, tokens, i, set, loops)
}

/// The tag is a plain one.
pub open spec fn is_plain_tag(s: Seq<char>, tokens: Seq<Token>, block: bool) -> bool {
    let first = word_at(s, tokens, 0);
    &&& block ==> is_statement(first)
    &&& are_plain(s, tokens, block && first == "set"@, block && first == "for"@)
}

/// How many conditions and loops there are behind a tag that starts with the word, and how many
/// loops are open there, if there are not too many.
pub open spec fn behind(first: Seq<char>, block: bool, branches: nat, loops: nat) -> Option<
    (nat, nat),
> {
    if !block {
        Some((branches, loops))
    } else if first == "for"@ {
        if branches < MAX_BRANCHES && loops < MAX_LOOPS {
            Some((branches + 1, loops + 1))
        } else {
            None
        }
    } else if first == "if"@ || first == "elif"@ {
        if branches < MAX_BRANCHES {
            Some((branches + 1, loops))
        } else {
            None
        }
    } else if first == "endfor"@ && loops > 0 {
        Some((branches, (loops - 1) as nat))
    } else {
        Some((branches, loops))
    }
}

/// The template is plain from place `i` on, behind so many conditions and loops, and inside of so
/// many loops.
pub open spec fn is_plain_from(s: Seq<char>, i: int, branches: nat, loops: nat) -> bool
    decreases s.len() - i,
{
    if i < 0 || i >= s.len() || s.len() > MAX_TEMPLATE {
        s.len() <= MAX_TEMPLATE
    } else if text::occurs_at(s, "{#"@, i) {
        proof {
            lemma_comment_advances(s, inside(s, i));
        }
        match comment_end(s, inside(s, i)) {
            Some(end) => is_plain_from(s, end, branches, loops),
            None => false,
        }
    } else if text::occurs_at(s, "{{"@, i) || text::occurs_at(s, "{%"@, i) {
        let block = text::occurs_at(s, "{%"@, i);
        proof {
            lemma_tag_advances(s, inside(s, i), block, 0, Seq::empty());
        }
        match read_from(s, inside(s, i), block, 0, Seq::empty()) {
            Some((tokens, end)) => is_plain_tag(s, tokens, block) && match behind(
                word_at(s, tokens, 0),
                block,
                branches,
                loops,
            ) {
                Some((more, inner)) => is_plain_from(s, end, more, inner),
                None => false,
            },
            None => false,
        }
    } else {
        is_plain_from(s, i + 1, branches, loops)
    }
}

/// The template is short, and a plain program.
pub open spec fn is_plain_template(template: Seq<char>) -> bool {
    is_plain_from(template, 0, 0, 0)
}

/// The template may turn the messages round.
pub open spec fn may_reverse(template: Seq<char>) -> bool {
    text::occurs_in(template, "[::-1]"@)
}

/// Whether `c` may stand between tokens.
fn spaces(c: char) -> (found: bool)
    ensures
        found == is_space(c),
{
    c == ' ' || c == '\t' || c == '\n' || c == '\r' || c == '\u{c}'
}

/// Whether a word may start with `c`.
fn starts_word(c: char) -> (found: bool)
    ensures
        found == is_letter(c),
{
    'a' <= c && c <= 'z' || 'A' <= c && c <= 'Z' || c == '_'
}

/// Whether a word may go on with `c`.
fn continues_word(c: char) -> (found: bool)
    ensures
        found == is_word_char(c),
{
    starts_word(c) || '0' <= c && c <= '9'
}

/// Whether `c` is a token of its own.
fn marks(c: char) -> (found: bool)
    ensures
        found == is_mark(c),
{
    c == '+' || c == '-' || c == '~' || c == '%' || c == '.' || c == ',' || c == '|' || c == '='
        || c == '!' || c == '<' || c == '>' || c == '(' || c == ')' || c == '[' || c == ']'
}

/// Where the word ends that goes on at `i`.
fn find_word_end(chars: &Vec<char>, i: usize) -> (end: usize)
    requires
        i <= chars@.len(),
    ensures
        end == word_end(chars@, i as int),
{
    let mut end: usize = i;
    while end < chars.len() && continues_word(chars[end])
        invariant
            end <= chars@.len(),
            word_end(chars@, end as int) == word_end(chars@, i as int),
        decreases chars@.len() - end,
    {
        end = end + 1;
    }
    end
}

/// Where the digits end that go on at `i`.
fn find_digits_end(chars: &Vec<char>, i: usize) -> (end: usize)
    requires
        i <= chars@.len(),
    ensures
        end == digits_end(chars@, i as int),
{
    let mut end: usize = i;
    while end < chars.len() && '0' <= chars[end] && chars[end] <= '9'
        invariant
            end <= chars@.len(),
            digits_end(chars@, end as int) == digits_end(chars@, i as int),
        decreases chars@.len() - end,
    {
        end = end + 1;
    }
    end
}

/// Where the text in quotes ends that goes on at `i`.
fn find_text_end(chars: &Vec<char>, i: usize, quote: char) -> (end: Option<usize>)
    ensures
        match end {
            Some(end) => text_end(chars@, i as int, quote) == Some(end as int),
            None => text_end(chars@, i as int, quote) is None,
        },
{
    let n = chars.len();
    let mut at: usize = i;
    while at < n
        invariant
            n == chars@.len(),
            text_end(chars@, at as int, quote) == text_end(chars@, i as int, quote),
        decreases n - at,
    {
        if chars[at] == quote {
            return Some(at + 1);
        }
        if chars[at] == '\\' {
            if n - at <= 2 {
                assert(text_end(chars@, at + 2, quote) is None);
                return None;
            }
            at = at + 2;
        } else {
            at = at + 1;
        }
    }
    None
}

/// The token at `i`, and where it ends.
fn read_token(chars: &Vec<char>, i: usize) -> (token: Option<(Token, usize)>)
    requires
        i < chars@.len() <= MAX_TEMPLATE,
    ensures
        match token {
            Some((token, end)) => token_at(chars@, i as int) == Some((token, end as int)),
            None => token_at(chars@, i as int) is None,
        },
{
    let c = chars[i];
    proof {
        reveal_strlit("[::-1]");
        lemma_word_end(chars@, i as int);
        lemma_digits_end(chars@, i as int);
    }
    if starts_word(c) {
        let end = find_word_end(chars, i);
        Some((Token::Word { start: i, end }, end))
    } else if '0' <= c && c <= '9' {
        let end = find_digits_end(chars, i);
        if end - i <= 9 && (end == chars.len() || chars[end] != '.' && !continues_word(chars[end])) {
            Some((Token::Number, end))
        } else {
            None
        }
    } else if c == '\'' || c == '"' {
        match find_text_end(chars, i + 1, c) {
            Some(end) => Some((Token::Text, end)),
            None => None,
        }
    } else if text::have_at(chars, "[::-1]", i) {
        Some((Token::Reversal, i + 6))
    } else if marks(c) {
        Some((Token::Mark(c), i + 1))
    } else {
        None
    }
}

/// Where the tag ends that is closed at `i`, if it is.
fn find_closing(chars: &Vec<char>, i: usize, block: bool) -> (end: Option<usize>)
    requires
        i < chars@.len() <= MAX_TEMPLATE,
    ensures
        match end {
            Some(end) => closed_at(chars@, i as int, block) == Some(end as int),
            None => closed_at(chars@, i as int, block) is None,
        },
{
    proof {
        reveal_strlit("%}");
        reveal_strlit("}}");
    }
    let closing = if block {
        "%}"
    } else {
        "}}"
    };
    if text::have_at(chars, closing, i) {
        Some(i + 2)
    } else if (chars[i] == '-' || chars[i] == '+') && text::have_at(chars, closing, i + 1) {
        Some(i + 3)
    } else {
        None
    }
}

/// How many brackets are open behind a token, if it closes none that is not.
fn count_open(token: Token, open: usize) -> (count: Option<usize>)
    requires
        open < MAX_TAG,
    ensures
        match count {
            Some(count) => open_behind(token, open as nat) == Some(count as nat) && count <= open
                + 1,
            None => open_behind(token, open as nat) is None,
        },
{
    match token {
        Token::Mark(c) => {
            if c == '(' || c == '[' {
                Some(open + 1)
            } else if c == ')' || c == ']' {
                if open == 0 {
                    None
                } else {
                    Some(open - 1)
                }
            } else {
                Some(open)
            }
        },
        _ => Some(open),
    }
}

/// The tokens of the tag whose inside starts at `i`, and where it ends.
fn read_tag(chars: &Vec<char>, i: usize, block: bool) -> (tag: Option<(Vec<Token>, usize)>)
    requires
        chars@.len() <= MAX_TEMPLATE,
        i <= chars@.len(),
    ensures
        match tag {
            Some((tokens, end)) => read_from(chars@, i as int, block, 0, Seq::empty()) == Some(
                (tokens@, end as int),
            ),
            None => read_from(chars@, i as int, block, 0, Seq::empty()) is None,
        },
{
    let n = chars.len();
    let ghost whole = read_from(chars@, i as int, block, 0, Seq::empty());
    let mut tokens: Vec<Token> = Vec::new();
    let mut open: usize = 0;
    let mut at: usize = i;
    assert(tokens@ =~= Seq::<Token>::empty());
    while at < n
        invariant
            n == chars@.len(),
            n <= MAX_TEMPLATE,
            open <= tokens@.len() <= MAX_TAG,
            whole == read_from(chars@, i as int, block, 0, Seq::empty()),
            read_from(chars@, at as int, block, open as nat, tokens@) == whole,
        decreases n - at,
    {
        if spaces(chars[at]) {
            at = at + 1;
            continue;
        }
        if open == 0 {
            if let Some(end) = find_closing(chars, at, block) {
                return Some((tokens, end));
            }
        }
        if tokens.len() >= MAX_TAG {
            return None;
        }
        proof {
            lemma_token_advances(chars@, at as int);
        }
        match read_token(chars, at) {
            Some((token, end)) => match count_open(token, open) {
                Some(more) => {
                    tokens.push(token);
                    open = more;
                    at = end;
                },
                None => {
                    return None;
                },
            },
            None => {
                return None;
            },
        }
    }
    None
}

/// Where the comment ends whose inside starts at `i`.
fn find_comment_end(chars: &Vec<char>, i: usize) -> (end: Option<usize>)
    ensures
        match end {
            Some(end) => comment_end(chars@, i as int) == Some(end as int),
            None => comment_end(chars@, i as int) is None,
        },
{
    proof {
        reveal_strlit("#}");
    }
    let n = chars.len();
    let mut at: usize = i;
    while at < n
        invariant
            n == chars@.len(),
            "#}"@.len() == 2,
            comment_end(chars@, at as int) == comment_end(chars@, i as int),
        decreases n - at,
    {
        if text::have_at(chars, "#}", at) {
            return Some(at + 2);
        }
        at = at + 1;
    }
    None
}

/// The word that the token `back` before token `i` is, or nothing.
fn word_before(chars: &Vec<char>, tokens: &Vec<Token>, i: usize, back: usize) -> (word: Vec<char>)
    requires
        are_within(tokens@, chars@.len()),
    ensures
        word@ == word_at(chars@, tokens@, i - back),
{
    let mut word: Vec<char> = Vec::new();
    if i < back || i - back >= tokens.len() {
        assert(word@ =~= Seq::<char>::empty());
        return word;
    }
    match tokens[i - back] {
        Token::Word { start, end } => {
            assert(tokens@[i - back] == (Token::Word { start, end }));
            let mut at: usize = start;
            while at < end
                invariant
                    start <= at <= end <= chars@.len(),
                    word@ == chars@.subrange(start as int, at as int),
                decreases end - at,
            {
                word.push(chars[at]);
                at = at + 1;
                assert(word@ =~= chars@.subrange(start as int, at as int));
            }
        },
        _ => {
            assert(word@ =~= Seq::<char>::empty());
        },
    }
    word
}

/// Whether the token `back` before token `i` is a mark.
fn is_mark_before(tokens: &Vec<Token>, i: usize, back: usize, c: char) -> (found: bool)
    ensures
        found == mark_at(tokens@, i - back, c),
{
    if i < back || i - back >= tokens.len() {
        return false;
    }
    match tokens[i - back] {
        Token::Mark(mark) => mark == c,
        _ => false,
    }
}

/// Whether a tag with a statement starts with the word.
fn names_statement(word: &Vec<char>) -> (found: bool)
    ensures
        found == is_statement(word@),
{
    text::spell(word, "if") || text::spell(word, "elif") || text::spell(word, "else")
        || text::spell(word, "endif") || text::spell(word, "for") || text::spell(word, "endfor")
        || text::spell(word, "set")
}

/// Whether the word joins two values, or stands in front of one.
fn names_operator(word: &Vec<char>) -> (found: bool)
    ensures
        found == is_operator(word@),
{
    text::spell(word, "if") || text::spell(word, "elif") || text::spell(word, "else")
        || text::spell(word, "not") || text::spell(word, "and") || text::spell(word, "or")
        || text::spell(word, "in")
}

/// Whether the word names a filter that can be applied to any value.
fn names_filter(word: &Vec<char>) -> (found: bool)
    ensures
        found == is_filter(word@),
{
    text::spell(word, "length") || text::spell(word, "trim") || text::spell(word, "tojson")
        || text::spell(word, "upper") || text::spell(word, "lower")
        || text::spell(word, "string")
}

/// Whether the word names a test of what a value is.
fn names_test(word: &Vec<char>) -> (found: bool)
    ensures
        found == is_test(word@),
{
    text::spell(word, "defined") || text::spell(word, "undefined") || text::spell(word, "none")
        || text::spell(word, "true") || text::spell(word, "false")
        || text::spell(word, "boolean") || text::spell(word, "number")
        || text::spell(word, "string") || text::spell(word, "sequence")
        || text::spell(word, "mapping") || text::spell(word, "iterable")
}

/// Whether the word names a method that can be called with a text or with nothing.
fn names_method(word: &Vec<char>) -> (found: bool)
    ensures
        found == is_method(word@),
{
    text::spell(word, "startswith") || text::spell(word, "endswith")
        || text::spell(word, "split") || text::spell(word, "strip")
        || text::spell(word, "lstrip") || text::spell(word, "rstrip")
        || text::spell(word, "upper") || text::spell(word, "lower")
}

/// Whether the word names something that can be called, and is not.
fn names_function(word: &Vec<char>) -> (found: bool)
    ensures
        found == is_function(word@),
{
    text::spell(word, "range") || text::spell(word, "dict") || text::spell(word, "debug")
        || text::spell(word, "cycler") || text::spell(word, "joiner")
        || text::spell(word, "lipsum") || text::spell(word, "randrange")
        || text::spell(word, "now") || text::spell(word, "self") || text::spell(word, "super")
        || text::spell(word, "caller") || text::spell(word, "recursive")
        || text::spell(word, "cycle") || text::spell(word, "changed")
}

/// Whether a text or nothing stands between the brackets that end at `i` or behind.
fn has_text_at_most(tokens: &Vec<Token>, i: usize) -> (found: bool)
    requires
        i < usize::MAX,
    ensures
        found == takes_a_text(tokens@, i as int),
{
    if is_mark_before(tokens, i, 0, ')') {
        return true;
    }
    if i >= tokens.len() {
        return false;
    }
    match tokens[i] {
        Token::Text => is_mark_before(tokens, i + 1, 0, ')'),
        _ => false,
    }
}

/// Whether the tag makes the namespace `ns`.
fn names_namespace(chars: &Vec<char>, tokens: &Vec<Token>) -> (found: bool)
    requires
        are_within(tokens@, chars@.len()),
    ensures
        found == makes_namespace(chars@, tokens@),
{
    text::spell(&word_before(chars, tokens, 1, 0), "ns") && is_mark_before(tokens, 2, 0, '=')
        && text::spell(&word_before(chars, tokens, 3, 0), "namespace") && is_mark_before(
        tokens,
        4,
        0,
        '(',
    )
}

/// Whether word `i` may stand where it does.
fn check_word(chars: &Vec<char>, tokens: &Vec<Token>, i: usize, set: bool, loops: bool) -> (plain:
    bool)
    requires
        are_within(tokens@, chars@.len()),
        i < tokens@.len() <= MAX_TAG,
    ensures
        plain == is_plain_word(chars@, tokens@, i as int, set, loops),
{
    let word = word_before(chars, tokens, i, 0);
    let before = word_before(chars, tokens, i, 1);
    let field = is_mark_before(tokens, i, 1, '.');
    let makes = set && names_namespace(chars, tokens);
    if names_function(&word) {
        return false;
    }
    if text::spell(&word, "namespace") && !(makes && i == 3) {
        return false;
    }
    if text::spell(&word, "ns") && !field && !is_mark_before(tokens, i + 1, 0, '.') && !(makes
        && i == 1) {
        return false;
    }
    if text::spell(&word, "messages") && i == 1 && (set || loops) {
        return false;
    }
    if is_mark_before(tokens, i, 1, '|') {
        let known = if set {
            text::spell(&word, "length")
        } else {
            names_filter(&word)
        };
        if !known {
            return false;
        }
    }
    if text::spell(&before, "is") && !text::spell(&word, "not") && !names_test(&word) {
        return false;
    }
    if text::spell(&before, "not") && text::spell(&word_before(chars, tokens, i, 2), "is")
        && !names_test(&word) {
        return false;
    }
    if is_mark_before(tokens, i + 1, 0, '(') {
        let one = has_text_at_most(tokens, i + 2);
        text::spell(&word, "namespace") || !field && names_operator(&word) || !field
            && text::spell(&word, "raise_exception") && one || field && names_method(&word) && one
    } else {
        true
    }
}

/// Whether mark `i` may stand where it does.
fn check_mark(
    chars: &Vec<char>,
    tokens: &Vec<Token>,
    i: usize,
    c: char,
    set: bool,
    loops: bool,
) -> (plain: bool)
    requires
        are_within(tokens@, chars@.len()),
        i < tokens@.len() <= MAX_TAG,
    ensures
        plain == is_plain_mark(chars@, tokens@, i as int, c, set, loops),
{
    let makes = set && names_namespace(chars, tokens);
    let ends = is_mark_before(tokens, i, 1, ')') || is_mark_before(tokens, i, 1, ']');
    let (word, mark) = if i == 0 {
        (false, false)
    } else {
        match tokens[i - 1] {
            Token::Word { .. } => (true, false),
            Token::Mark(_) => (false, true),
            _ => (false, false),
        }
    };
    if c == '(' {
        !ends && (i == 0 || word || mark) && (!makes || i == 4)
    } else if c == '[' {
        ends || word && !names_operator(&word_before(chars, tokens, i, 1))
    } else if c == ',' {
        !loops && (!set || makes)
    } else if c == '+' || c == '~' {
        !set
    } else {
        true
    }
}

/// Whether the tag is a plain one.
fn check_tag(chars: &Vec<char>, tokens: &Vec<Token>, block: bool) -> (plain: bool)
    requires
        are_within(tokens@, chars@.len()),
        tokens@.len() <= MAX_TAG,
    ensures
        plain == is_plain_tag(chars@, tokens@, block),
{
    let first = word_before(chars, tokens, 0, 0);
    let set = block && text::spell(&first, "set");
    let loops = block && text::spell(&first, "for");
    if block && !names_statement(&first) {
        return false;
    }
    let mut i: usize = 0;
    while i < tokens.len()
        invariant
            are_within(tokens@, chars@.len()),
            i <= tokens@.len() <= MAX_TAG,
            set == (block && word_at(chars@, tokens@, 0) == "set"@),
            loops == (block && word_at(chars@, tokens@, 0) == "for"@),
            forall|j: int| 0 <= j < i ==> #[trigger] is_plain_at(chars@, tokens@, j, set, loops),
        decreases tokens@.len() - i,
    {
        let plain = match tokens[i] {
            Token::Word { .. } => check_word(chars, tokens, i, set, loops),
            Token::Mark(c) => check_mark(chars, tokens, i, c, set, loops),
            Token::Reversal => text::spell(&word_before(chars, tokens, i, 1), "messages")
                && !is_mark_before(tokens, i, 2, '.') && !set,
            _ => true,
        };
        assert(plain == is_plain_at(chars@, tokens@, i as int, set, loops));
        if !plain {
            return false;
        }
        i = i + 1;
    }
    true
}

/// How many conditions and loops there are behind a tag that starts with the word, and how many
/// loops are open there, if there are not too many.
fn count_behind(first: &Vec<char>, block: bool, branches: usize, loops: usize) -> (count: Option<
    (usize, usize),
>)
    requires
        branches <= MAX_BRANCHES,
        loops <= MAX_LOOPS,
    ensures
        match count {
            Some((more, inner)) => behind(first@, block, branches as nat, loops as nat) == Some(
                (more as nat, inner as nat),
            ) && more <= MAX_BRANCHES && inner <= MAX_LOOPS,
            None => behind(first@, block, branches as nat, loops as nat) is None,
        },
{
    if !block {
        return Some((branches, loops));
    }
    if text::spell(first, "for") {
        return if branches < MAX_BRANCHES && loops < MAX_LOOPS {
            Some((branches + 1, loops + 1))
        } else {
            None
        };
    }
    if text::spell(first, "if") || text::spell(first, "elif") {
        return if branches < MAX_BRANCHES {
            Some((branches + 1, loops))
        } else {
            None
        };
    }
    if text::spell(first, "endfor") && loops > 0 {
        Some((branches, loops - 1))
    } else {
        Some((branches, loops))
    }
}

/// Whether the template is short, and a plain program.
pub fn check_template(template: &str) -> (plain: bool)
    ensures
        plain == is_plain_template(template@),
{
    let chars = text::chars_of(template);
    let n = chars.len();
    if n > MAX_TEMPLATE {
        return false;
    }
    let mut branches: usize = 0;
    let mut loops: usize = 0;
    let mut i: usize = 0;
    proof {
        reveal_strlit("{#");
        reveal_strlit("{{");
        reveal_strlit("{%");
    }
    while i < n
        invariant
            chars@ == template@,
            n == chars@.len(),
            n <= MAX_TEMPLATE,
            "{#"@.len() == 2,
            "{{"@.len() == 2,
            "{%"@.len() == 2,
            branches <= MAX_BRANCHES,
            loops <= MAX_LOOPS,
            is_plain_from(template@, i as int, branches as nat, loops as nat) == is_plain_template(
                template@,
            ),
        decreases n - i,
    {
        let comment = text::have_at(&chars, "{#", i);
        let block = text::have_at(&chars, "{%", i);
        if !comment && !block && !text::have_at(&chars, "{{", i) {
            i = i + 1;
            continue;
        }
        let start = if i + 2 < n && (chars[i + 2] == '-' || chars[i + 2] == '+') {
            i + 3
        } else {
            i + 2
        };
        assert(start == inside(template@, i as int));
        if comment {
            proof {
                lemma_comment_advances(template@, start as int);
            }
            match find_comment_end(&chars, start) {
                Some(end) => {
                    i = end;
                },
                None => {
                    return false;
                },
            }
        } else {
            proof {
                lemma_tag_advances(template@, start as int, block, 0, Seq::empty());
            }
            match read_tag(&chars, start, block) {
                Some((tokens, end)) => {
                    if !check_tag(&chars, &tokens, block) {
                        return false;
                    }
                    match count_behind(
                        &word_before(&chars, &tokens, 0, 0),
                        block,
                        branches,
                        loops,
                    ) {
                        Some((more, inner)) => {
                            branches = more;
                            loops = inner;
                            i = end;
                        },
                        None => {
                            return false;
                        },
                    }
                },
                None => {
                    return false;
                },
            }
        }
    }
    true
}

} // verus!
