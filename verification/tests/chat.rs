use nanovllm::chat::{
    chat_prompt, chat_template, load_chat_template, render_chat_prompt, required_prompt,
    required_template, ChatError,
};
use nanovllm::template::check_template;

#[test]
fn the_template_is_found_in_the_configuration() {
    let config = br#"{"model_max_length": 7, "chat_template": "{{ messages }}\n"}"#;
    assert_eq!(chat_template(config).ok().unwrap(), "{{ messages }}\n");
    let config = br#"{"chat_template": 3}"#;
    assert!(matches!(chat_template(config), Err(ChatError::NoTemplate)));
    assert!(matches!(chat_template(b"{}"), Err(ChatError::NoTemplate)));
    assert!(matches!(chat_template(b"{"), Err(ChatError::Json(_))));
    assert!(matches!(chat_template(b"{} {}"), Err(ChatError::Json(_))));
}

#[test]
fn a_template_is_required() {
    assert_eq!(required_template(Some("a".to_string())).ok().unwrap(), "a");
    assert!(matches!(required_template(None), Err(ChatError::NoTemplate)));
}

/// The chat template of the Qwen3 models.
const QWEN: &str = r##"{%- if tools %}
    {{- '<|im_start|>system\n' }}
    {%- if messages[0].role == 'system' %}
        {{- messages[0].content + '\n\n' }}
    {%- endif %}
    {{- "# Tools\n\nYou may call one or more functions to assist with the user query.\n\nYou are provided with function signatures within <tools></tools> XML tags:\n<tools>" }}
    {%- for tool in tools %}
        {{- "\n" }}
        {{- tool | tojson }}
    {%- endfor %}
    {{- "\n</tools>\n\nFor each function call, return a json object with function name and arguments within <tool_call></tool_call> XML tags:\n<tool_call>\n{\"name\": <function-name>, \"arguments\": <args-json-object>}\n</tool_call><|im_end|>\n" }}
{%- else %}
    {%- if messages[0].role == 'system' %}
        {{- '<|im_start|>system\n' + messages[0].content + '<|im_end|>\n' }}
    {%- endif %}
{%- endif %}
{%- set ns = namespace(multi_step_tool=true, last_query_index=messages|length - 1) %}
{%- for message in messages[::-1] %}
    {%- set index = (messages|length - 1) - loop.index0 %}
    {%- if ns.multi_step_tool and message.role == "user" and message.content is string and not(message.content.startswith('<tool_response>') and message.content.endswith('</tool_response>')) %}
        {%- set ns.multi_step_tool = false %}
        {%- set ns.last_query_index = index %}
    {%- endif %}
{%- endfor %}
{%- for message in messages %}
    {%- if message.content is string %}
        {%- set content = message.content %}
    {%- else %}
        {%- set content = '' %}
    {%- endif %}
    {%- if (message.role == "user") or (message.role == "system" and not loop.first) %}
        {{- '<|im_start|>' + message.role + '\n' + content + '<|im_end|>' + '\n' }}
    {%- elif message.role == "assistant" %}
        {%- set reasoning_content = '' %}
        {%- if message.reasoning_content is string %}
            {%- set reasoning_content = message.reasoning_content %}
        {%- else %}
            {%- if '</think>' in content %}
                {%- set reasoning_content = content.split('</think>')[0].rstrip('\n').split('<think>')[-1].lstrip('\n') %}
                {%- set content = content.split('</think>')[-1].lstrip('\n') %}
            {%- endif %}
        {%- endif %}
        {%- if loop.index0 > ns.last_query_index %}
            {%- if loop.last or (not loop.last and reasoning_content) %}
                {{- '<|im_start|>' + message.role + '\n<think>\n' + reasoning_content.strip('\n') + '\n</think>\n\n' + content.lstrip('\n') }}
            {%- else %}
                {{- '<|im_start|>' + message.role + '\n' + content }}
            {%- endif %}
        {%- else %}
            {{- '<|im_start|>' + message.role + '\n' + content }}
        {%- endif %}
        {%- if message.tool_calls %}
            {%- for tool_call in message.tool_calls %}
                {%- if (loop.first and content) or (not loop.first) %}
                    {{- '\n' }}
                {%- endif %}
                {%- if tool_call.function %}
                    {%- set tool_call = tool_call.function %}
                {%- endif %}
                {{- '<tool_call>\n{"name": "' }}
                {{- tool_call.name }}
                {{- '", "arguments": ' }}
                {%- if tool_call.arguments is string %}
                    {{- tool_call.arguments }}
                {%- else %}
                    {{- tool_call.arguments | tojson }}
                {%- endif %}
                {{- '}\n</tool_call>' }}
            {%- endfor %}
        {%- endif %}
        {{- '<|im_end|>\n' }}
    {%- elif message.role == "tool" %}
        {%- if loop.first or (messages[loop.index0 - 1].role != "tool") %}
            {{- '<|im_start|>user' }}
        {%- endif %}
        {{- '\n<tool_response>\n' }}
        {{- content }}
        {{- '\n</tool_response>' }}
        {%- if loop.last or (messages[loop.index0 + 1].role != "tool") %}
            {{- '<|im_end|>\n' }}
        {%- endif %}
    {%- endif %}
{%- endfor %}
{%- if add_generation_prompt %}
    {{- '<|im_start|>assistant\n' }}
    {%- if enable_thinking is defined and enable_thinking is false %}
        {{- '<think>\n\n</think>\n\n' }}
    {%- endif %}
{%- endif %}"##;

fn messages(list: &[(&str, &str)]) -> Vec<(String, String)> {
    list.iter().map(|(role, content)| (role.to_string(), content.to_string())).collect()
}

/// The configuration of a tokenizer with this template.
fn config_with(template: &str) -> Vec<u8> {
    format!(r#"{{"chat_template": {}}}"#, serde_json::to_string(template).unwrap()).into_bytes()
}

#[test]
fn a_chat_is_rendered_by_the_template_of_the_model() {
    assert!(check_template(QWEN));
    let config = config_with(QWEN);
    assert_eq!(load_chat_template(&config).ok().unwrap(), QWEN);
    assert_eq!(
        chat_prompt(&config, &messages(&[("system", "Be brief."), ("user", "Hi")])).ok().unwrap(),
        "<|im_start|>system\nBe brief.<|im_end|>\n<|im_start|>user\nHi<|im_end|>\n\
         <|im_start|>assistant\n"
    );
    let turns = messages(&[
        ("user", "a"),
        ("assistant", "<think>\nhm\n</think>\n\nb"),
        ("user", "c {{ d }} é"),
    ]);
    assert_eq!(
        render_chat_prompt(QWEN, &turns).ok().unwrap(),
        "<|im_start|>user\na<|im_end|>\n<|im_start|>assistant\nb<|im_end|>\n\
         <|im_start|>user\nc {{ d }} é<|im_end|>\n<|im_start|>assistant\n"
    );
    let tools = messages(&[("user", "a"), ("tool", "x"), ("tool", "y")]);
    assert_eq!(
        render_chat_prompt(QWEN, &tools).ok().unwrap(),
        "<|im_start|>user\na<|im_end|>\n<|im_start|>user\n<tool_response>\nx\n</tool_response>\n\
         <tool_response>\ny\n</tool_response><|im_end|>\n<|im_start|>assistant\n"
    );
}

#[test]
fn a_prompt_depends_on_roles_and_contents() {
    let template = "{% for m in messages %}[{{ m.role }}|{{ m['content']|trim }}]{% endfor %}\
                    {# - #}{{ '>' if add_generation_prompt }}";
    assert_eq!(
        render_chat_prompt(template, &messages(&[("user", " a "), ("assistant", "b")])).ok().unwrap(),
        "[user|a][assistant|b]>"
    );
    assert_eq!(render_chat_prompt(template, &Vec::new()).ok().unwrap(), ">");
    let last = "{{ messages[-1].content.upper() }} {{ messages|length - 1 }} {{ messages[0].role }}";
    assert_eq!(
        render_chat_prompt(last, &messages(&[("user", "a"), ("user", "b")])).ok().unwrap(),
        "B 1 user"
    );
    let backwards = "{% for m in messages[::-1] %}{{ m.content }}{% endfor %}";
    assert_eq!(
        render_chat_prompt(backwards, &messages(&[("user", "a"), ("user", "b")])).ok().unwrap(),
        "ba"
    );
}

#[test]
fn a_template_can_give_up() {
    let template = "{% if messages[0]['role'] == 'system' %}{{ raise_exception('no system') }}\
                    {% endif %}{% for m in messages %}\
                    {% if (m['role'] == 'user') != (loop.index0 % 2 == 0) %}\
                    {{ raise_exception('not in turn') }}{% endif %}\
                    {% if (m['role'] == 'assistant') %}{% set role = 'model' %}{% else %}\
                    {% set role = m['role'] %}{% endif %}\
                    {{ '<' + role + '>' + m['content'] | trim + '\\n' }}{% endfor %}";
    assert_eq!(
        render_chat_prompt(template, &messages(&[("user", "a "), ("assistant", "b")])).ok().unwrap(),
        "<user>a\n<model>b\n"
    );
    let refused = messages(&[("system", "a")]);
    assert!(matches!(render_chat_prompt(template, &refused), Err(ChatError::Failed)));
    let refused = messages(&[("user", "a"), ("user", "b")]);
    assert!(matches!(render_chat_prompt(template, &refused), Err(ChatError::Failed)));
    assert!(!check_template("{{ raise_exception('a' + b) }}"));
}

#[test]
fn what_is_no_template_is_reported() {
    assert!(matches!(load_chat_template(b"{"), Err(ChatError::Json(_))));
    assert!(matches!(load_chat_template(b"{}"), Err(ChatError::NoTemplate)));
    let unfinished = config_with("{% if messages %}a");
    assert!(matches!(load_chat_template(&unfinished), Err(ChatError::Invalid)));
    let repeating = config_with("{{ 'a' * 9 }}");
    assert!(matches!(load_chat_template(&repeating), Err(ChatError::Unsupported)));
    assert_eq!(load_chat_template(&config_with("a")).ok().unwrap(), "a");
}

#[test]
fn what_makes_no_prompt_is_reported() {
    let one = messages(&[("user", "a")]);
    assert!(matches!(chat_prompt(b"{", &one), Err(ChatError::Json(_))));
    assert!(matches!(chat_prompt(b"{}", &one), Err(ChatError::NoTemplate)));
    assert!(matches!(chat_prompt(&config_with("{{ a"), &one), Err(ChatError::Unsupported)));
    assert!(matches!(chat_prompt(&config_with("{{ 1 2 }}"), &one), Err(ChatError::Invalid)));
    assert!(matches!(chat_prompt(&config_with(QWEN), &Vec::new()), Err(ChatError::NoMessages)));
    assert!(matches!(
        chat_prompt(&config_with("{{ messages.content.role }}"), &one),
        Err(ChatError::Failed)
    ));
    assert!(matches!(render_chat_prompt("{{ a", &one), Err(ChatError::Unsupported)));
    assert!(matches!(render_chat_prompt("{{ 1 2 }}", &one), Err(ChatError::Failed)));
    assert!(matches!(render_chat_prompt("{{ a.b.c }}", &one), Err(ChatError::Failed)));
    assert!(matches!(required_prompt(None), Err(ChatError::Failed)));
    assert_eq!(required_prompt(Some("a".to_string())).ok().unwrap(), "a");
}

#[test]
fn plain_templates_are_made_of_plain_parts() {
    for plain in [
        "",
        "a { b } %} }}",
        "{{ a }}{%- if a -%}b{%+ endif +%}",
        "{# {{ 'x' * 2 }} #}{#-#}",
        "{{ 'it\\'s }}' ~ \"%}\" + x.y[0][-1]['k'] }}",
        "{{ (a) and not (b or c) in d }}",
        "{{ a is not none and a is string }}",
        "{{ a.strip().lstrip('b').split() }}",
        "{% set ns = namespace(found=false, n=1) %}{% set ns.found = true %}{{ ns.found }}",
        "{% set x = messages|length - 1 %}",
        "{% for m in messages if m.role == 'user' %}{{ m.content|upper|lower }}{% endfor %}",
    ] {
        assert!(check_template(plain), "{plain}");
    }
    for other in [
        "{{ a",
        "{% if a",
        "{# a",
        "{{ 'a }}",
        "{{ a) }}",
        "{{ (a }}",
        "{{ a * b }}",
        "{{ {} }}",
        "{{ [a] }}",
        "{{ é }}",
        "{{ 1.5 }}",
        "{{ 0x10 }}",
        "{{ 1234567890 }}",
        "{{ a[1:2] }}",
        "{{ a[::-1] }}",
        "{{ a.messages[::-1] }}",
        "{{ messages[::-1][::-1] }}",
        "{{ a(b) }}",
        "{{ a.b()() }}",
        "{{ a[0](b) }}",
        "{{ 'a'(b) }}",
        "{{ 1 (b) }}",
        "{{ a.join(b) }}",
        "{{ a.strip(b) }}",
        "{{ a.split('b', 1) }}",
        "{{ a.split('b' + c) }}",
        "{{ a|indent }}",
        "{{ a|trim('b') }}",
        "{{ a is divisibleby 0 }}",
        "{{ a is not divisibleby 0 }}",
        "{{ range(9) }}",
        "{{ loop.cycle }}",
        "{{ namespace(a=b) }}",
        "{{ ns }}",
        "{% set ns.a = ns %}",
        "{% set a = namespace(b=1) %}",
        "{% set ns = namespace(b=c.strip()) %}",
        "{% set messages = a %}",
        "{% for messages in a %}{% endfor %}",
        "{% set a, b = c %}",
        "{% set a = (a, a) %}",
        "{% set a = a + a %}",
        "{% set a = a ~ a %}",
        "{% set a = a|tojson %}",
        "{% set a = messages[::-1] %}",
        "{% for a, b in c %}{% endfor %}",
        "{% for a in b recursive %}{% endfor %}",
        "{% macro a() %}{% endmacro %}",
        "{% raw %}{% endraw %}",
        "{% include 'a' %}",
        "{% endset %}",
        "{% %}",
    ] {
        assert!(!check_template(other), "{other}");
    }
}

#[test]
fn plain_templates_are_bounded() {
    let none = Vec::new();
    let long = "a".repeat(0x8000);
    assert_eq!(render_chat_prompt(&long, &none).ok().unwrap(), long);
    assert!(!check_template(&"a".repeat(0x8001)));
    let negated = |n: usize| format!("{{{{ {}true }}}}", "not ".repeat(n));
    assert_eq!(render_chat_prompt(&negated(126), &none).ok().unwrap(), "True");
    assert!(!check_template(&negated(128)));
    let nested = |n: usize| format!("{{{{ {}1{} }}}}", "(".repeat(n), ")".repeat(n));
    assert_eq!(render_chat_prompt(&nested(63), &none).ok().unwrap(), "1");
    assert!(!check_template(&nested(64)));
    let sums = |n: usize| format!("{{{{ 0{} }}}}", " + 1".repeat(n));
    assert_eq!(render_chat_prompt(&sums(63), &none).ok().unwrap(), "63");
    assert!(!check_template(&sums(64)));
    let inner = |n: usize| format!("{}a{}", "{% if true %}".repeat(n), "{% endif %}".repeat(n));
    assert!(check_template(&inner(128)));
    let _ = render_chat_prompt(&inner(128), &none);
    assert_eq!(render_chat_prompt(&inner(64), &none).ok().unwrap(), "a");
    assert!(!check_template(&inner(129)));
    let chosen = |n: usize| {
        format!("{{% if false %}}a{}{{% else %}}b{{% endif %}}", "{% elif false %}c".repeat(n))
    };
    assert_eq!(render_chat_prompt(&chosen(127), &none).ok().unwrap(), "b");
    assert!(!check_template(&chosen(128)));
    let loops = |n: usize| {
        format!("{}{}", "{% for m in messages %}".repeat(n), "a{% endfor %}".repeat(n))
    };
    let two = messages(&[("user", ""), ("user", "")]);
    assert_eq!(render_chat_prompt(&loops(2), &two).ok().unwrap(), "aaaaaa");
    assert!(!check_template(&loops(3)));
    assert!(check_template(&loops(2).repeat(64)));
    assert!(!check_template(&loops(2).repeat(65)));
}
