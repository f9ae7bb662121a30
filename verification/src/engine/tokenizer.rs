//! Text into tokens and back, by a tokenizer that does not break down over it.
use crate::utils::text;
use tokenizers::processors::template::TemplateProcessing;
use tokenizers::{ModelWrapper, PaddingStrategy, PostProcessor, PostProcessorWrapper, Tokenizer};
use vstd::prelude::*;

verus! {

/// `tokenizers::Tokenizer`: what turns text into tokens and back.
#[verifier::external_type_specification]
#[verifier::external_body]
pub struct ExTokenizer(tokenizers::Tokenizer);

/// What `serde_json::to_string` writes of the `tokenizers::Tokenizer::get_added_vocabulary`.
pub uninterp spec fn added_text(tokenizer: Tokenizer) -> Option<Seq<char>>;

/// What `serde_json::to_string` writes of the `tokenizers::Tokenizer::get_normalizer`.
pub uninterp spec fn normalizer_text(tokenizer: Tokenizer) -> Option<Seq<char>>;

/// What `serde_json::to_string` writes of the `tokenizers::Tokenizer::get_pre_tokenizer`.
pub uninterp spec fn splitter_text(tokenizer: Tokenizer) -> Option<Seq<char>>;

/// The bits of the smoothing with which the `tokenizers::Tokenizer::get_model` draws a
/// segmentation at random, where it is a `tokenizers::models::unigram::Unigram` that does.
pub uninterp spec fn smoothing_of(tokenizer: Tokenizer) -> Option<u64>;

/// The longest length and the stride that `tokenizers::Tokenizer::get_truncation` gives.
pub uninterp spec fn truncation_of(tokenizer: Tokenizer) -> Option<(usize, usize)>;

/// The fixed length and the multiple that `tokenizers::Tokenizer::get_padding` gives, or zero
/// where there is no such one.
pub uninterp spec fn padding_of(tokenizer: Tokenizer) -> Option<(usize, usize)>;

/// How many tokens the `tokenizers::Tokenizer::get_post_processor` adds to a text, by its
/// `tokenizers::PostProcessor::added_tokens`.
pub uninterp spec fn added_tokens(tokenizer: Tokenizer) -> usize;

/// What `serde_json::to_string` writes of the `tokenizers::Tokenizer::get_post_processor`.
pub uninterp spec fn processor_text(tokenizer: Tokenizer) -> Option<Seq<char>>;

/// What `serde_json::to_string` writes of part `i` of the
/// `tokenizers::Tokenizer::get_post_processor`, if it has so many: a
/// `tokenizers::processors::sequence::Sequence` has parts, any other is its only part.
pub uninterp spec fn part_text(tokenizer: Tokenizer, i: usize) -> Option<Seq<char>>;

/// What `serde_json::to_string` writes of the template for one text, where part `i` of the
/// `tokenizers::Tokenizer::get_post_processor` is a template.
pub uninterp spec fn template_text(tokenizer: Tokenizer, i: usize) -> Option<Seq<char>>;

/// Whether part `i` of the `tokenizers::Tokenizer::get_post_processor` is a template that
/// `tokenizers::processors::template::TemplateProcessingBuilder::build` takes.
pub uninterp spec fn is_complete_template(tokenizer: Tokenizer, i: usize) -> bool;

/// What `serde_json::to_string` writes of the `tokenizers::Tokenizer::get_decoder`.
pub uninterp spec fn decoder_text(tokenizer: Tokenizer) -> Option<Seq<char>>;

/// The longest that a tokenizer may pad a text to, so that its tokens can be addressed.
pub const MAX_PADDING: usize = 0x0080_0000;

/// No token that takes in the spaces before it can find them taken by one that takes in the spaces
/// behind it.
pub open spec fn are_sound_tokens(added: Seq<char>) -> bool {
    !(text::occurs_in(added, "\"lstrip\":true"@) && text::occurs_in(added, "\"rstrip\":true"@))
}

/// No step of the normalizer leaves characters that stand for none of the text, which the steps
/// behind it do not expect: what is replaced is a text of some length, and so is what is put in
/// front. A pattern, which may match nothing, is not taken, nor is a table of replacements, which
/// may point anywhere.
pub open spec fn is_sound_normalizer(normalizer: Seq<char>) -> bool {
    &&& text::goes_on_as(
        normalizer,
        "\"type\":\"Replace\",\"pattern\":"@,
        "\"type\":\"Replace\",\"pattern\":{\"String\":\""@,
    )
    &&& !text::occurs_in(normalizer, "\"pattern\":{\"String\":\"\""@)
    &&& !text::occurs_in(normalizer, "\"prepend\":\"\""@)
    &&& !text::occurs_in(normalizer, "\"type\":\"Precompiled\""@)
}

/// The steps, as they are written, have no pattern that moves the start of what it matches, nor
/// one that looks for what a group of it has matched: the start may come to lie behind the end, of
/// the match or of the group.
pub open spec fn are_sound_patterns(steps: Seq<char>) -> bool {
    &&& !text::occurs_in(steps, "\\\\K"@)
    &&& !text::occurs_in(steps, "\\\\k"@)
    &&& !text::occurs_in(steps, "?P="@)
    &&& !text::digit_follows(steps, "\\\\"@)
}

/// No text is split into pieces of no length, nor by a pattern that breaks down.
pub open spec fn is_sound_splitter(splitter: Seq<char>) -> bool {
    &&& !text::occurs_in(splitter, "\"length\":0"@)
    &&& are_sound_patterns(splitter)
}

/// A text that is too long is cut down to at least what the stride needs, besides the tokens
/// that are added.
pub open spec fn can_truncate(truncation: Option<(usize, usize)>, added: usize) -> bool {
    match truncation {
        Some((max_length, stride)) => max_length == added || max_length >= added && stride
            < max_length - added,
        None => true,
    }
}

/// No text is padded beyond what can be addressed.
pub open spec fn can_pad(padding: Option<(usize, usize)>) -> bool {
    match padding {
        Some((fixed, multiple)) => fixed <= MAX_PADDING && multiple <= MAX_PADDING,
        None => true,
    }
}

/// The tokens that are added do not come from a template.
pub open spec fn is_without_template(processor: Seq<char>) -> bool {
    !text::occurs_in(processor, "\"type\":\"TemplateProcessing\""@)
}

/// The template for one text does not ask for a second one.
pub open spec fn is_for_one_text(template: Seq<char>) -> bool {
    !text::occurs_in(template, "{\"Sequence\":{\"id\":\"B\""@)
}

/// Part `i` of what adds tokens is a template that has all the tokens that it names and asks for
/// one text only.
pub open spec fn is_sound_template(tokenizer: Tokenizer, i: usize) -> bool {
    &&& is_complete_template(tokenizer, i)
    &&& template_text(tokenizer, i) matches Some(template) && is_for_one_text(template)
}

/// Of the parts of what adds tokens, from part `i` on, at most one comes from a template, and none
/// where one before them does: what a template leaves is more than the one text that the next
/// would ask for. Each such part is a template itself.
pub open spec fn are_sound_parts(tokenizer: Tokenizer, i: usize, templated: bool) -> bool
    decreases usize::MAX - i,
{
    match part_text(tokenizer, i) {
        Some(part) => {
            let here = !is_without_template(part);
            &&& here ==> !templated && is_sound_template(tokenizer, i)
            &&& i < usize::MAX ==> are_sound_parts(tokenizer, (i + 1) as usize, templated || here)
        },
        None => true,
    }
}

/// The tokens that are added do not come from a template, or from one that can be used, alone or
/// among other parts.
pub open spec fn is_sound_processor(tokenizer: Tokenizer) -> bool {
    &&& processor_text(tokenizer) matches Some(processor)
    &&& is_without_template(processor) || are_sound_parts(tokenizer, 0, false)
}

/// No step of the decoder breaks down over tokens: none strips their ends, which they may not
/// have, none needs a last token, where there may be none, and none replaces by a pattern that
/// breaks down.
pub open spec fn is_sound_decoder(decoder: Seq<char>) -> bool {
    &&& are_sound_patterns(decoder)
    &&& text::goes_on_as(decoder, "\"stop\":"@, "\"stop\":0"@)
    &&& !text::occurs_in(decoder, "\"type\":\"BPEDecoder\""@)
}

/// The tokenizer can be asked for the tokens of any text, and for the text of any tokens.
pub open spec fn is_usable(tokenizer: Tokenizer) -> bool {
    &&& added_text(tokenizer) matches Some(added) && are_sound_tokens(added)
    &&& normalizer_text(tokenizer) matches Some(normalizer) && is_sound_normalizer(normalizer)
    &&& splitter_text(tokenizer) matches Some(splitter) && is_sound_splitter(splitter)
    &&& smoothing_of(tokenizer) is None
    &&& can_truncate(truncation_of(tokenizer), added_tokens(tokenizer))
    &&& can_pad(padding_of(tokenizer))
    &&& is_sound_processor(tokenizer)
    &&& decoder_text(tokenizer) matches Some(decoder) && is_sound_decoder(decoder)
}

/// Calls `serde_json::to_string` on the `tokenizers::Tokenizer::get_added_vocabulary`.
#[verifier::external_body]
fn added_json(tokenizer: &Tokenizer) -> (json: Option<String>)
    ensures
        text::text_of(json) == added_text(*tokenizer),
{
    serde_json::to_string(tokenizer.get_added_vocabulary()).ok()
}

/// Calls `serde_json::to_string` on the `tokenizers::Tokenizer::get_normalizer`.
#[verifier::external_body]
fn normalizer_json(tokenizer: &Tokenizer) -> (json: Option<String>)
    ensures
        text::text_of(json) == normalizer_text(*tokenizer),
{
    serde_json::to_string(&tokenizer.get_normalizer()).ok()
}

/// Calls `serde_json::to_string` on the `tokenizers::Tokenizer::get_pre_tokenizer`.
#[verifier::external_body]
fn splitter_json(tokenizer: &Tokenizer) -> (json: Option<String>)
    ensures
        text::text_of(json) == splitter_text(*tokenizer),
{
    serde_json::to_string(&tokenizer.get_pre_tokenizer()).ok()
}

/// Reads the smoothing of a `tokenizers::models::unigram::Unigram`, where the
/// `tokenizers::Tokenizer::get_model` is one.
#[verifier::external_body]
fn smoothing(tokenizer: &Tokenizer) -> (bits: Option<u64>)
    ensures
        bits == smoothing_of(*tokenizer),
{
    match tokenizer.get_model() {
        ModelWrapper::Unigram(model) => model.alpha.map(|alpha| alpha.to_bits()),
        _ => None,
    }
}

/// Calls `tokenizers::Tokenizer::get_truncation`: the longest length and the stride.
#[verifier::external_body]
fn truncation(tokenizer: &Tokenizer) -> (found: Option<(usize, usize)>)
    ensures
        found == truncation_of(*tokenizer),
{
    tokenizer.get_truncation().map(|params| (params.max_length, params.stride))
}

/// Calls `tokenizers::Tokenizer::get_padding`: the fixed length, or zero where the longest text
/// gives it, and the multiple, or zero where there is none.
#[verifier::external_body]
fn padding(tokenizer: &Tokenizer) -> (found: Option<(usize, usize)>)
    ensures
        found == padding_of(*tokenizer),
{
    tokenizer.get_padding().map(|params| {
        let fixed = match params.strategy {
            PaddingStrategy::Fixed(length) => length,
            PaddingStrategy::BatchLongest => 0,
        };
        (fixed, params.pad_to_multiple_of.unwrap_or(0))
    })
}

/// Calls `tokenizers::PostProcessor::added_tokens` on the
/// `tokenizers::Tokenizer::get_post_processor`, for one text. Where there is none, none are added.
#[verifier::external_body]
fn added(tokenizer: &Tokenizer) -> (count: usize)
    ensures
        count == added_tokens(*tokenizer),
{
    tokenizer.get_post_processor().map(|processor| processor.added_tokens(false)).unwrap_or(0)
}

/// Calls `serde_json::to_string` on the `tokenizers::Tokenizer::get_post_processor`.
#[verifier::external_body]
fn processor_json(tokenizer: &Tokenizer) -> (json: Option<String>)
    ensures
        text::text_of(json) == processor_text(*tokenizer),
{
    serde_json::to_string(&tokenizer.get_post_processor()).ok()
}

/// Calls `serde_json::to_string` on part `i` of the `tokenizers::Tokenizer::get_post_processor`,
/// if it has so many: a `tokenizers::processors::sequence::Sequence` has parts, any other is its
/// only part.
#[verifier::external_body]
fn part_json(tokenizer: &Tokenizer, i: usize) -> (json: Option<String>)
    ensures
        text::text_of(json) == part_text(*tokenizer, i),
{
    let parts = match tokenizer.get_post_processor()? {
        PostProcessorWrapper::Sequence(sequence) => sequence.as_ref(),
        processor => std::slice::from_ref(processor),
    };
    serde_json::to_string(parts.get(i)?).ok()
}

/// Calls `serde_json::to_string` on the template for one text, where part `i` of the
/// `tokenizers::Tokenizer::get_post_processor` is a template.
#[verifier::external_body]
fn template_json(tokenizer: &Tokenizer, i: usize) -> (json: Option<String>)
    ensures
        text::text_of(json) == template_text(*tokenizer, i),
{
    let parts = match tokenizer.get_post_processor()? {
        PostProcessorWrapper::Sequence(sequence) => sequence.as_ref(),
        processor => std::slice::from_ref(processor),
    };
    match parts.get(i)? {
        PostProcessorWrapper::Template(template) => serde_json::to_string(&template.single).ok(),
        _ => None,
    }
}

/// Calls `tokenizers::processors::template::TemplateProcessingBuilder::build` on the parts of the
/// template, where part `i` of the `tokenizers::Tokenizer::get_post_processor` is one. It takes
/// only a template that has all the tokens that it names.
#[verifier::external_body]
fn template_is_complete(tokenizer: &Tokenizer, i: usize) -> (complete: bool)
    ensures
        complete == is_complete_template(*tokenizer, i),
{
    let parts = match tokenizer.get_post_processor() {
        Some(PostProcessorWrapper::Sequence(sequence)) => sequence.as_ref(),
        Some(processor) => std::slice::from_ref(processor),
        None => &[],
    };
    match parts.get(i) {
        Some(PostProcessorWrapper::Template(template)) => TemplateProcessing::builder()
            .single(template.single.clone())
            .pair(template.get_pair().clone())
            .special_tokens(template.get_special_tokens().clone())
            .build()
            .is_ok(),
        _ => false,
    }
}

/// Calls `serde_json::to_string` on the `tokenizers::Tokenizer::get_decoder`.
#[verifier::external_body]
fn decoder_json(tokenizer: &Tokenizer) -> (json: Option<String>)
    ensures
        text::text_of(json) == decoder_text(*tokenizer),
{
    serde_json::to_string(&tokenizer.get_decoder()).ok()
}

/// Whether no pattern of the steps breaks down.
fn patterns_are_sound(steps: &str) -> (sound: bool)
    ensures
        sound == are_sound_patterns(steps@),
{
    !text::contains(steps, "\\\\K") && !text::contains(steps, "\\\\k") && !text::contains(
        steps,
        "?P=",
    ) && !text::has_digit_behind(steps, "\\\\")
}

/// Whether the text can be cut at the added tokens, normalized and split, whatever it is.
fn steps_are_sound(tokenizer: &Tokenizer) -> (sound: bool)
    ensures
        sound == {
            &&& added_text(*tokenizer) matches Some(added) && are_sound_tokens(added)
            &&& normalizer_text(*tokenizer) matches Some(normalizer) && is_sound_normalizer(
                normalizer,
            )
            &&& splitter_text(*tokenizer) matches Some(splitter) && is_sound_splitter(splitter)
        },
{
    match added_json(tokenizer) {
        Some(added) => {
            if text::contains(added.as_str(), "\"lstrip\":true") && text::contains(
                added.as_str(),
                "\"rstrip\":true",
            ) {
                return false;
            }
        },
        None => {
            return false;
        },
    }
    match normalizer_json(tokenizer) {
        Some(normalizer) => {
            if !text::always_goes_on_as(
                normalizer.as_str(),
                "\"type\":\"Replace\",\"pattern\":",
                "\"type\":\"Replace\",\"pattern\":{\"String\":\"",
            ) || text::contains(normalizer.as_str(), "\"pattern\":{\"String\":\"\"")
                || text::contains(normalizer.as_str(), "\"prepend\":\"\"") || text::contains(
                normalizer.as_str(),
                "\"type\":\"Precompiled\"",
            ) {
                return false;
            }
        },
        None => {
            return false;
        },
    }
    match splitter_json(tokenizer) {
        Some(splitter) => !text::contains(splitter.as_str(), "\"length\":0")
            && patterns_are_sound(splitter.as_str()),
        None => false,
    }
}

/// Whether no step of the decoder breaks down over tokens.
fn decoder_is_sound(decoder: &str) -> (sound: bool)
    ensures
        sound == is_sound_decoder(decoder@),
{
    patterns_are_sound(decoder) && text::always_goes_on_as(decoder, "\"stop\":", "\"stop\":0")
        && !text::contains(decoder, "\"type\":\"BPEDecoder\"")
}

/// Whether part `i` of what adds tokens is a template that can be used.
fn template_is_sound(tokenizer: &Tokenizer, i: usize) -> (sound: bool)
    ensures
        sound == is_sound_template(*tokenizer, i),
{
    if !template_is_complete(tokenizer, i) {
        return false;
    }
    match template_json(tokenizer, i) {
        Some(template) => !text::contains(
            template.as_str(),
            "{\"Sequence\":{\"id\":\"B\"",
        ),
        None => false,
    }
}

/// Whether the tokens that are added can be added to any text.
fn processor_is_sound(tokenizer: &Tokenizer) -> (sound: bool)
    ensures
        sound == is_sound_processor(*tokenizer),
{
    match processor_json(tokenizer) {
        Some(processor) => {
            if !text::contains(processor.as_str(), "\"type\":\"TemplateProcessing\"") {
                return true;
            }
        },
        None => {
            return false;
        },
    }
    let mut templated = false;
    let mut i: usize = 0;
    loop
        invariant
            processor_text(*tokenizer) matches Some(processor) && !is_without_template(processor),
            are_sound_parts(*tokenizer, i, templated) == are_sound_parts(*tokenizer, 0, false),
        decreases usize::MAX - i,
    {
        match part_json(tokenizer, i) {
            Some(part) => {
                if text::contains(part.as_str(), "\"type\":\"TemplateProcessing\"") {
                    if templated || !template_is_sound(tokenizer, i) {
                        return false;
                    }
                    templated = true;
                }
                if i == usize::MAX {
                    return true;
                }
                i = i + 1;
            },
            None => {
                return true;
            },
        }
    }
}

/// Whether the tokenizer can be asked for the tokens of any text, and for the text of any tokens.
pub fn check(tokenizer: &Tokenizer) -> (usable: bool)
    ensures
        usable == is_usable(*tokenizer),
{
    if !steps_are_sound(tokenizer) || smoothing(tokenizer).is_some() {
        return false;
    }
    let added = added(tokenizer);
    match truncation(tokenizer) {
        Some((max_length, stride)) => {
            if max_length < added || max_length > added && stride >= max_length - added {
                return false;
            }
        },
        None => {},
    }
    match padding(tokenizer) {
        Some((fixed, multiple)) => {
            if fixed > MAX_PADDING || multiple > MAX_PADDING {
                return false;
            }
        },
        None => {},
    }
    if !processor_is_sound(tokenizer) {
        return false;
    }
    match decoder_json(tokenizer) {
        Some(decoder) => decoder_is_sound(decoder.as_str()),
        None => false,
    }
}

/// Whether `tokenizers::Tokenizer::encode`, with the special tokens added, may turn a text into
/// these tokens, or may fail to turn it into any. It may do so in more than one way: a tokenizer
/// can draw at random how a word is split.
pub uninterp spec fn may_encode(tokenizer: Tokenizer, text: Seq<char>, ids: Option<Seq<u32>>) -> bool;

/// What an optional list of tokens holds.
pub open spec fn ids_of(ids: Option<Vec<u32>>) -> Option<Seq<u32>> {
    match ids {
        Some(ids) => Some(ids@),
        None => None,
    }
}

/// Calls `tokenizers::Tokenizer::encode`, with the special tokens added. The tokens are among
/// those that the tokenizer may make of the text. Which they are is not said: they can rest on
/// chance.
#[verifier::external_body]
pub(crate) fn encode(tokenizer: &Tokenizer, text: &str) -> (ids: Option<Vec<u32>>)
    requires
        is_usable(*tokenizer),
    ensures
        may_encode(*tokenizer, text@, ids_of(ids)),
{
    tokenizer.encode(text, true).ok().map(|encoding| encoding.get_ids().to_vec())
}

/// The text that `tokenizers::Tokenizer::decode` makes of `ids`, with the special tokens left
/// out, if it makes one.
pub uninterp spec fn decoded_text(tokenizer: Tokenizer, ids: Seq<u32>) -> Option<Seq<char>>;

/// Calls `tokenizers::Tokenizer::decode`, with the special tokens left out. The text is a
/// function of the tokenizer and the tokens.
#[verifier::external_body]
pub(crate) fn decode(tokenizer: &Tokenizer, ids: &[u32]) -> (text: Option<String>)
    requires
        is_usable(*tokenizer),
    ensures
        text::text_of(text) == decoded_text(*tokenizer, ids@),
{
    tokenizer.decode(ids, true).ok()
}

} // verus!
