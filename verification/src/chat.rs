//! The chat template of a model, out of the configuration of its tokenizer, and the prompts that
//! it makes of messages.
use crate::template;
use crate::utils::text;
use minijinja::{Environment, Value};
use vstd::prelude::*;

verus! {

/// `serde_json::Error`.
#[verifier::external_type_specification]
#[verifier::external_body]
pub struct ExJsonError(serde_json::Error);

/// Why there is no template, or no prompt.
pub enum ChatError {
    /// The configuration of the tokenizer is not JSON.
    Json(serde_json::Error),
    /// The configuration of the tokenizer has no template.
    NoTemplate,
    /// The template is not a plain one, and may break down.
    Unsupported,
    /// The template is not written as one.
    Invalid,
    /// The template turns the messages round, and there are none.
    NoMessages,
    /// The template makes no prompt of these messages.
    Failed,
}

/// What `serde_json::Value::get` and `serde_json::Value::as_str` find under a key in the value
/// that `serde_json::from_slice` reads from `bytes`, or nothing where it reads none.
pub uninterp spec fn json_text(bytes: Seq<u8>, key: Seq<char>) -> Option<Option<Seq<char>>>;

/// Calls `serde_json::from_slice`, and `serde_json::Value::get` and `serde_json::Value::as_str`
/// on what it reads: the text under a key. What is read depends on the bytes and the key alone.
#[verifier::external_body]
fn find_text(bytes: &[u8], key: &str) -> (found: Result<Option<String>, serde_json::Error>)
    ensures
        found is Ok == json_text(bytes@, key@) is Some,
        found matches Ok(text) ==> json_text(bytes@, key@) == Some(text::text_of(text)),
{
    let value: serde_json::Value = serde_json::from_slice(bytes)?;
    Ok(value.get(key).and_then(|v| v.as_str()).map(String::from))
}

/// The template that was found, which there has to be.
pub fn required_template(found: Option<String>) -> (template: Result<String, ChatError>)
    ensures
        match found {
            Some(text) => template == Ok::<String, ChatError>(text),
            None => template == Err::<String, ChatError>(ChatError::NoTemplate),
        },
{
    match found {
        Some(text) => Ok(text),
        None => Err(ChatError::NoTemplate),
    }
}

/// The chat template in the configuration of a tokenizer.
pub fn chat_template(tokenizer_config: &[u8]) -> (template: Result<String, ChatError>)
    ensures
        match json_text(tokenizer_config@, "chat_template"@) {
            Some(Some(text)) => template matches Ok(t) && t@ == text,
            Some(None) => template matches Err(error) && error is NoTemplate,
            None => template matches Err(error) && error is Json,
        },
{
    match find_text(tokenizer_config, "chat_template") {
        Ok(found) => required_template(found),
        Err(error) => Err(ChatError::Json(error)),
    }
}

/// Whether `minijinja::Environment::add_template` takes the template.
pub uninterp spec fn is_template(template: Seq<char>) -> bool;

/// Calls `minijinja::Environment::add_template` on an environment with the additions of
/// `minijinja_contrib::add_to_environment`. Whether it takes the template depends on the template
/// alone. A plain one is parsed without breaking down.
#[verifier::external_body]
fn parses(template: &str) -> (parsed: bool)
    requires
        template::is_plain_template(template@),
    ensures
        parsed == is_template(template@),
{
    let mut env = Environment::new();
    minijinja_contrib::add_to_environment(&mut env);
    env.add_template("chat", template).is_ok()
}

/// The roles and the contents of messages.
pub open spec fn messages_of(messages: Seq<(String, String)>) -> Seq<(Seq<char>, Seq<char>)> {
    Seq::new(messages.len(), |i: int| (messages[i].0@, messages[i].1@))
}

/// The template can be rendered for so many messages: it is a plain one, and does not turn round
/// what is empty.
pub open spec fn can_render(template: Seq<char>, messages: nat) -> bool {
    template::is_plain_template(template) && (messages > 0 || !template::may_reverse(template))
}

/// What `minijinja::Template::render` makes of the template for messages of these roles and
/// contents, with a generation prompt, if it makes anything.
pub uninterp spec fn rendered_chat(
    template: Seq<char>,
    messages: Seq<(Seq<char>, Seq<char>)>,
) -> Option<Seq<char>>;

/// Calls `minijinja::Template::render`, with the methods of
/// `minijinja_contrib::pycompat::unknown_method_callback`, on the `messages` and an
/// `add_generation_prompt` that is true. What is rendered depends on the template and the messages
/// alone. A plain template does so without breaking down, unless it turns an empty list of
/// messages round.
#[verifier::external_body]
fn render(template: &str, messages: &Vec<(String, String)>) -> (prompt: Option<String>)
    requires
        can_render(template@, messages@.len()),
    ensures
        text::text_of(prompt) == rendered_chat(template@, messages_of(messages@)),
{
    let mut env = Environment::new();
    minijinja_contrib::add_to_environment(&mut env);
    env.set_unknown_method_callback(minijinja_contrib::pycompat::unknown_method_callback);
    env.add_template("chat", template).ok()?;
    let messages = Value::from_iter(messages.iter().map(|(role, content)| {
        Value::from_pairs([("role", role.as_str()), ("content", content.as_str())])
    }));
    let context = [("messages", messages), ("add_generation_prompt", Value::from(true))];
    env.get_template("chat").ok()?.render(Value::from_pairs(context)).ok()
}

/// The chat template in the configuration of a tokenizer, if it can be used.
pub fn load_chat_template(tokenizer_config: &[u8]) -> (template: Result<String, ChatError>)
    ensures
        match json_text(tokenizer_config@, "chat_template"@) {
            Some(Some(text)) => if !template::is_plain_template(text) {
                template matches Err(error) && error is Unsupported
            } else if !is_template(text) {
                template matches Err(error) && error is Invalid
            } else {
                template matches Ok(t) && t@ == text
            },
            Some(None) => template matches Err(error) && error is NoTemplate,
            None => template matches Err(error) && error is Json,
        },
{
    match chat_template(tokenizer_config) {
        Ok(text) => {
            if !template::check_template(text.as_str()) {
                Err(ChatError::Unsupported)
            } else if !parses(text.as_str()) {
                Err(ChatError::Invalid)
            } else {
                Ok(text)
            }
        },
        Err(error) => Err(error),
    }
}

/// The prompt that was rendered, which there has to be.
pub fn required_prompt(rendered: Option<String>) -> (prompt: Result<String, ChatError>)
    ensures
        match rendered {
            Some(text) => prompt == Ok::<String, ChatError>(text),
            None => prompt == Err::<String, ChatError>(ChatError::Failed),
        },
{
    match rendered {
        Some(text) => Ok(text),
        None => Err(ChatError::Failed),
    }
}

/// The prompt that a template makes of messages, each a role and a content.
pub fn render_chat_prompt(template: &str, messages: &Vec<(String, String)>) -> (prompt: Result<
    String,
    ChatError,
>)
    ensures
        if !template::is_plain_template(template@) {
            prompt matches Err(error) && error is Unsupported
        } else if !can_render(template@, messages@.len()) {
            prompt matches Err(error) && error is NoMessages
        } else {
            match rendered_chat(template@, messages_of(messages@)) {
                Some(text) => prompt matches Ok(p) && p@ == text,
                None => prompt matches Err(error) && error is Failed,
            }
        },
{
    if !template::check_template(template) {
        return Err(ChatError::Unsupported);
    }
    if messages.len() == 0 && text::contains(template, "[::-1]") {
        return Err(ChatError::NoMessages);
    }
    required_prompt(render(template, messages))
}

/// The prompt that a model takes for messages, by the template in the configuration of its
/// tokenizer.
pub fn chat_prompt(tokenizer_config: &[u8], messages: &Vec<(String, String)>) -> (prompt: Result<
    String,
    ChatError,
>)
    ensures
        match json_text(tokenizer_config@, "chat_template"@) {
            Some(Some(text)) => if !template::is_plain_template(text) {
                prompt matches Err(error) && error is Unsupported
            } else if !is_template(text) {
                prompt matches Err(error) && error is Invalid
            } else if !can_render(text, messages@.len()) {
                prompt matches Err(error) && error is NoMessages
            } else {
                match rendered_chat(text, messages_of(messages@)) {
                    Some(made) => prompt matches Ok(p) && p@ == made,
                    None => prompt matches Err(error) && error is Failed,
                }
            },
            Some(None) => prompt matches Err(error) && error is NoTemplate,
            None => prompt matches Err(error) && error is Json,
        },
{
    match load_chat_template(tokenizer_config) {
        Ok(template) => render_chat_prompt(template.as_str(), messages),
        Err(error) => Err(error),
    }
}

} // verus!
