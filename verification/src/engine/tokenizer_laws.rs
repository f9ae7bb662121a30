//! Which tokenizers can be used.
use crate::engine::tokenizer;
use crate::utils::text;
use tokenizers::Tokenizer;
use vstd::prelude::*;

verus! {

/// Part `i` of what adds tokens comes from a template.
pub open spec fn is_templated(tokenizer: Tokenizer, i: int) -> bool {
    tokenizer::part_text(tokenizer, i as usize) matches Some(part)
        && !tokenizer::is_without_template(part)
}

proof fn lemma_parts(tokenizer: Tokenizer, n: int, i: int, templated: bool)
    requires
        0 <= i <= n <= usize::MAX,
        forall|k: int|
            0 <= k < n ==> #[trigger] tokenizer::part_text(tokenizer, k as usize) is Some,
        tokenizer::part_text(tokenizer, n as usize) is None,
    ensures
        tokenizer::are_sound_parts(tokenizer, i as usize, templated) <==> {
            &&& forall|k: int| #![trigger is_templated(tokenizer, k)]
                i <= k < n && is_templated(tokenizer, k) ==> !templated
                    && tokenizer::is_sound_template(tokenizer, k as usize)
            &&& forall|k: int, l: int| #![trigger is_templated(tokenizer, k), is_templated(tokenizer, l)]
                i <= k < l < n && is_templated(tokenizer, k) ==> !is_templated(tokenizer, l)
        },
    decreases n - i,
{
    if i < n {
        let here = is_templated(tokenizer, i);
        assert(tokenizer::part_text(tokenizer, i as usize) is Some);
        lemma_parts(tokenizer, n, i + 1, templated || here);
    }
}

/// What adds tokens in `n` parts is sound where one part at most comes from a template, and that
/// part has all the tokens that it names and asks for one text only.
pub proof fn one_part_may_be_a_template(tokenizer: Tokenizer, n: int)
    requires
        0 <= n <= usize::MAX,
        forall|k: int|
            0 <= k < n ==> #[trigger] tokenizer::part_text(tokenizer, k as usize) is Some,
        tokenizer::part_text(tokenizer, n as usize) is None,
    ensures
        tokenizer::are_sound_parts(tokenizer, 0, false) <==> {
            &&& forall|k: int| #![trigger is_templated(tokenizer, k)]
                0 <= k < n && is_templated(tokenizer, k) ==> tokenizer::is_sound_template(
                    tokenizer,
                    k as usize,
                )
            &&& forall|k: int, l: int| #![trigger is_templated(tokenizer, k), is_templated(tokenizer, l)]
                0 <= k < l < n && is_templated(tokenizer, k) ==> !is_templated(tokenizer, l)
        },
{
    lemma_parts(tokenizer, n, 0, false);
}

/// No pattern in a text of this kind refers to what a group has matched or moves the start of the
/// match: nowhere in it stands such a sign.
pub open spec fn has_plain_patterns(steps: Seq<char>) -> bool {
    forall|i: int|
        0 <= i && i + 3 <= steps.len() ==> {
            let three = #[trigger] steps.subrange(i, i + 3);
            &&& three != "\\\\K"@ && three != "\\\\k"@ && three != "?P="@
            &&& !(three[0] == '\\' && three[1] == '\\' && '0' <= three[2] <= '9')
        }
}

proof fn lemma_patterns(steps: Seq<char>)
    requires
        tokenizer::are_sound_patterns(steps),
    ensures
        has_plain_patterns(steps),
{
    reveal_strlit("\\\\K");
    reveal_strlit("\\\\k");
    reveal_strlit("?P=");
    reveal_strlit("\\\\");
    assert forall|i: int| 0 <= i && i + 3 <= steps.len() implies {
        let three = #[trigger] steps.subrange(i, i + 3);
        &&& three != "\\\\K"@ && three != "\\\\k"@ && three != "?P="@
        &&& !(three[0] == '\\' && three[1] == '\\' && '0' <= three[2] <= '9')
    } by {
        let three = steps.subrange(i, i + 3);
        assert(!text::occurs_at(steps, "\\\\K"@, i));
        assert(!text::occurs_at(steps, "\\\\k"@, i));
        assert(!text::occurs_at(steps, "?P="@, i));
        if three[0] == '\\' && three[1] == '\\' && '0' <= three[2] <= '9' {
            assert(steps.subrange(i, i + 2) =~= "\\\\"@);
            assert(text::occurs_at(steps, "\\\\"@, i));
            assert(text::is_digit(steps[i + 2]));
        }
    }
}

/// A tokenizer that is used splits and decodes by plain patterns only, pads no text beyond what can
/// be addressed, cuts none shorter than its stride, and draws nothing by chance.
pub proof fn a_usable_tokenizer_is_harmless(tokenizer: Tokenizer)
    requires
        tokenizer::is_usable(tokenizer),
    ensures
        tokenizer::splitter_text(tokenizer) matches Some(splitter) && has_plain_patterns(splitter),
        tokenizer::decoder_text(tokenizer) matches Some(decoder) && has_plain_patterns(decoder),
        tokenizer::smoothing_of(tokenizer) is None,
        tokenizer::padding_of(tokenizer) matches Some((fixed, multiple)) ==> fixed <= 0x0080_0000
            && multiple <= 0x0080_0000,
        tokenizer::truncation_of(tokenizer) matches Some((longest, stride)) ==> longest
            == tokenizer::added_tokens(tokenizer) || tokenizer::added_tokens(tokenizer) + stride
            < longest,
{
    lemma_patterns(tokenizer::splitter_text(tokenizer)->0);
    lemma_patterns(tokenizer::decoder_text(tokenizer)->0);
}

} // verus!
