//! Chat templates: wrapping a prompt in the format that an instruct model was
//! trained on. The known formats are recognised by their markers.

use crate::gguf::{Metadata, MetadataView};
use crate::text::{contains_text, occurs_at, occurs_in};
use vstd::prelude::*;
use vstd::string::StringExecFns;

verus! {

broadcast use vstd::string::group_string_axioms;

/// One message of a chat.
#[derive(Debug, Clone)]
pub struct ChatMessage {
    pub role: String,
    pub content: String,
}

/// A model's chat template.
#[derive(Debug, Clone)]
pub struct ChatTemplate {
    pub template_str: String,
    pub messages: Vec<ChatMessage>,
}

/// The known chat formats.
#[derive(Debug, Clone, Copy, PartialEq, Eq, Structural)]
pub enum TemplateType {
    ChatMl,
    Llama3,
    Llama2,
}

/// The format of a template, by its markers; ChatML where there are none.
pub open spec fn type_of_template(t: Seq<char>) -> TemplateType {
    if occurs_in("<|im_start|>"@, t) || occurs_in("<|im_end|>"@, t) {
        TemplateType::ChatMl
    } else if occurs_in("<|start_header_id|>"@, t) || occurs_in("<|eot_id|>"@, t) {
        TemplateType::Llama3
    } else if occurs_in("[INST]"@, t) || occurs_in("[/INST]"@, t) {
        TemplateType::Llama2
    } else {
        TemplateType::ChatMl
    }
}

/// What stands in front of the user's prompt.
pub open spec fn opening(kind: TemplateType, system: Option<Seq<char>>) -> Seq<char> {
    match kind {
        TemplateType::ChatMl => match system {
            Some(s) => "<|im_start|>system\n"@ + s + "<|im_end|>\n"@ + "<|im_start|>user\n"@,
            None => "<|im_start|>user\n"@,
        },
        TemplateType::Llama3 => match system {
            Some(s) => "<|begin_of_text|>"@ + "<|start_header_id|>system<|end_header_id|>\n\n"@ + s
                + "<|eot_id|>"@ + "<|start_header_id|>user<|end_header_id|>\n\n"@,
            None => "<|begin_of_text|>"@ + "<|start_header_id|>user<|end_header_id|>\n\n"@,
        },
        TemplateType::Llama2 => match system {
            Some(s) => "[INST] "@ + "<<SYS>>\n"@ + s + "\n<</SYS>>\n\n"@,
            None => "[INST] "@,
        },
    }
}

/// What stands behind the user's prompt.
pub open spec fn closing(kind: TemplateType) -> Seq<char> {
    match kind {
        TemplateType::ChatMl => "<|im_end|>\n"@ + "<|im_start|>assistant\n"@,
        TemplateType::Llama3 => "<|eot_id|>"@
            + "<|start_header_id|>assistant<|end_header_id|>\n\n"@,
        TemplateType::Llama2 => " [/INST]"@,
    }
}

/// A prompt in the format of a template.
pub open spec fn wrapped(
    template: Seq<char>,
    user: Seq<char>,
    system: Option<Seq<char>>,
) -> Seq<char> {
    let kind = type_of_template(template);
    opening(kind, system) + user + closing(kind)
}

/// The text that a prompt becomes: wrapped where there is a template, itself where there
/// is none.
pub open spec fn prompt_text(
    template: Option<ChatTemplate>,
    prompt: Seq<char>,
    system: Option<Seq<char>>,
) -> Seq<char> {
    match template {
        Some(t) => wrapped(t.template_str@, prompt, system),
        None => prompt,
    }
}

/// What an optional text holds.
pub open spec fn text_option(s: Option<&str>) -> Option<Seq<char>> {
    match s {
        Some(t) => Some(t@),
        None => None,
    }
}

impl ChatTemplate {
    /// The template of a file, where its metadata has one
    pub fn from_metadata(metadata: &Metadata) -> (r: Option<Self>)
        ensures
            r is Some <==> metadata@.contains_key("tokenizer.chat_template"@)
                && metadata@["tokenizer.chat_template"@] is String,
            r matches Some(t) ==> MetadataView::String(t.template_str@)
                == metadata@["tokenizer.chat_template"@] && t.messages@.len() == 0,
    {
        match metadata.get("tokenizer.chat_template") {
            Some(v) => match v.to_string_ref() {
                Some(s) => Some(
                    ChatTemplate { template_str: s.to_owned(), messages: Vec::new() },
                ),
                None => None,
            },
            None => None,
        }
    }

    pub fn add_message(&mut self, role: &str, content: &str)
        ensures
            final(self).template_str@ == old(self).template_str@,
            final(self).messages@.len() == old(self).messages@.len() + 1,
            final(self).messages@.drop_last() == old(self).messages@,
            final(self).messages@.last().role@ == role@,
            final(self).messages@.last().content@ == content@,
    {
        self.messages.push(ChatMessage { role: role.to_owned(), content: content.to_owned() });
        assert(self.messages@.drop_last() =~= old(self).messages@);
    }

    /// The user's prompt in the format of the template
    pub fn apply(&self, user_prompt: &str, system_prompt: Option<&str>) -> (r: String)
        ensures
            r@ == wrapped(self.template_str@, user_prompt@, text_option(system_prompt)),
    {
        self.apply_template(user_prompt, system_prompt)
    }

    fn apply_template(&self, user_prompt: &str, system_prompt: Option<&str>) -> (r: String)
        ensures
            r@ == wrapped(self.template_str@, user_prompt@, text_option(system_prompt)),
    {
        apply_jinja2_template(self.template_str.as_str(), user_prompt, system_prompt)
    }
}

/// Wraps a prompt for the model: with the template of the model where it has one; a
/// model without one gets the prompt as it is.
pub fn wrap_prompt(
    template: &Option<ChatTemplate>,
    prompt: &str,
    system: Option<&str>,
) -> (r: String)
    ensures
        r@ == prompt_text(*template, prompt@, text_option(system)),
{
    match template {
        Some(t) => t.apply(prompt, system),
        None => prompt.to_string(),
    }
}

fn detect_template_type(template: &str) -> (r: TemplateType)
    ensures
        r == type_of_template(template@),
{
    if contains_text(template, "<|im_start|>") || contains_text(template, "<|im_end|>") {
        TemplateType::ChatMl
    } else if contains_text(template, "<|start_header_id|>") || contains_text(
        template,
        "<|eot_id|>",
    ) {
        TemplateType::Llama3
    } else if contains_text(template, "[INST]") || contains_text(template, "[/INST]") {
        TemplateType::Llama2
    } else {
        TemplateType::ChatMl
    }
}

fn apply_jinja2_template(template: &str, user_prompt: &str, system_prompt: Option<&str>) -> (r:
    String)
    ensures
        r@ == wrapped(template@, user_prompt@, text_option(system_prompt)),
{
    match detect_template_type(template) {
        TemplateType::ChatMl => apply_chatml_fallback(user_prompt, system_prompt),
        TemplateType::Llama3 => apply_llama3_fallback(user_prompt, system_prompt),
        TemplateType::Llama2 => apply_llama2_fallback(user_prompt, system_prompt),
    }
}

fn apply_chatml_fallback(user_prompt: &str, system_prompt: Option<&str>) -> (r: String)
    ensures
        r@ == opening(TemplateType::ChatMl, text_option(system_prompt)) + user_prompt@ + closing(
            TemplateType::ChatMl,
        ),
{
    let mut result = String::new();
    if let Some(sys) = system_prompt {
        result.append("<|im_start|>system\n");
        result.append(sys);
        result.append("<|im_end|>\n");
    }
    result.append("<|im_start|>user\n");
    assert(result@ =~= opening(TemplateType::ChatMl, text_option(system_prompt)));
    result.append(user_prompt);
    result.append("<|im_end|>\n");
    result.append("<|im_start|>assistant\n");
    assert(result@ =~= opening(TemplateType::ChatMl, text_option(system_prompt)) + user_prompt@
        + closing(TemplateType::ChatMl));
    result
}

fn apply_llama3_fallback(user_prompt: &str, system_prompt: Option<&str>) -> (r: String)
    ensures
        r@ == opening(TemplateType::Llama3, text_option(system_prompt)) + user_prompt@ + closing(
            TemplateType::Llama3,
        ),
{
    let mut result = String::new();
    result.append("<|begin_of_text|>");
    if let Some(sys) = system_prompt {
        result.append("<|start_header_id|>system<|end_header_id|>\n\n");
        result.append(sys);
        result.append("<|eot_id|>");
    }
    result.append("<|start_header_id|>user<|end_header_id|>\n\n");
    assert(result@ =~= opening(TemplateType::Llama3, text_option(system_prompt)));
    result.append(user_prompt);
    result.append("<|eot_id|>");
    result.append("<|start_header_id|>assistant<|end_header_id|>\n\n");
    assert(result@ =~= opening(TemplateType::Llama3, text_option(system_prompt)) + user_prompt@
        + closing(TemplateType::Llama3));
    result
}

fn apply_llama2_fallback(user_prompt: &str, system_prompt: Option<&str>) -> (r: String)
    ensures
        r@ == opening(TemplateType::Llama2, text_option(system_prompt)) + user_prompt@ + closing(
            TemplateType::Llama2,
        ),
{
    let mut result = String::new();
    result.append("[INST] ");
    if let Some(sys) = system_prompt {
        result.append("<<SYS>>\n");
        result.append(sys);
        result.append("\n<</SYS>>\n\n");
    }
    assert(result@ =~= opening(TemplateType::Llama2, text_option(system_prompt)));
    result.append(user_prompt);
    result.append(" [/INST]");
    assert(result@ =~= opening(TemplateType::Llama2, text_option(system_prompt)) + user_prompt@
        + closing(TemplateType::Llama2));
    result
}

/// Whatever the template, the user's prompt stands in the result unchanged, behind
/// the opening and in front of the closing of the format.
pub proof fn law_prompt_is_kept(template: Seq<char>, user: Seq<char>, system: Option<Seq<char>>)
    ensures
        occurs_at(
            user,
            wrapped(template, user, system),
            opening(type_of_template(template), system).len() as int,
        ),
{
    let kind = type_of_template(template);
    let n = opening(kind, system).len() as int;
    assert(wrapped(template, user, system).subrange(n, n + user.len()) =~= user);
}

/// So does the system prompt.
pub proof fn law_system_prompt_is_kept(template: Seq<char>, user: Seq<char>, system: Seq<char>)
    ensures
        occurs_in(system, wrapped(template, user, Some(system))),
{
    let kind = type_of_template(template);
    let w = wrapped(template, user, Some(system));
    let n = match kind {
        TemplateType::ChatMl => "<|im_start|>system\n"@.len() as int,
        TemplateType::Llama3 => ("<|begin_of_text|>"@
            + "<|start_header_id|>system<|end_header_id|>\n\n"@).len() as int,
        TemplateType::Llama2 => ("[INST] "@ + "<<SYS>>\n"@).len() as int,
    };
    assert(w.subrange(n, n + system.len()) =~= system);
    assert(occurs_at(system, w, n));
}

/// A text is a part of another.
pub open spec fn is_part(m: Seq<char>, t: Seq<char>) -> bool {
    exists|a: Seq<char>, b: Seq<char>| #[trigger] (a + m + b) == t
}

proof fn lemma_parts_occur(m: Seq<char>, t: Seq<char>)
    ensures
        is_part(m, t) <==> occurs_in(m, t),
{
    if is_part(m, t) {
        let (a, b) = choose|a: Seq<char>, b: Seq<char>| #[trigger] (a + m + b) == t;
        let n = a.len() as int;
        assert(t.subrange(n, n + m.len()) =~= m);
        assert(occurs_at(m, t, n));
    }
    if occurs_in(m, t) {
        let i = choose|i: int| occurs_at(m, t, i);
        let a = t.take(i);
        let b = t.skip(i + m.len());
        assert(a + m + b =~= t);
    }
}

/// A template with a ChatML marker anywhere gives ChatML: each message stands between
/// `<|im_start|>` with its role and `<|im_end|>`, and the result ends where the
/// assistant's message is to begin.
pub proof fn law_chatml_markers_give_chatml(
    template: Seq<char>,
    user: Seq<char>,
    system: Option<Seq<char>>,
)
    requires
        is_part("<|im_start|>"@, template) || is_part("<|im_end|>"@, template),
    ensures
        system is None ==> wrapped(template, user, system) == "<|im_start|>user\n"@ + user
            + "<|im_end|>\n<|im_start|>assistant\n"@,
        system matches Some(s) ==> wrapped(template, user, system) == "<|im_start|>system\n"@ + s
            + "<|im_end|>\n<|im_start|>user\n"@ + user + "<|im_end|>\n<|im_start|>assistant\n"@,
        "<|im_start|>"@.is_prefix_of(wrapped(template, user, system)),
{
    lemma_parts_occur("<|im_start|>"@, template);
    lemma_parts_occur("<|im_end|>"@, template);
    lemma_chatml_text(user, system);
}

/// So does a template without any of the known markers.
pub proof fn law_chatml_is_the_default(
    template: Seq<char>,
    user: Seq<char>,
    system: Option<Seq<char>>,
)
    requires
        !is_part("<|start_header_id|>"@, template),
        !is_part("<|eot_id|>"@, template),
        !is_part("[INST]"@, template),
        !is_part("[/INST]"@, template),
    ensures
        wrapped(template, user, system) == wrapped("<|im_start|>"@, user, system),
{
    lemma_parts_occur("<|start_header_id|>"@, template);
    lemma_parts_occur("<|eot_id|>"@, template);
    lemma_parts_occur("[INST]"@, template);
    lemma_parts_occur("[/INST]"@, template);
    let m = "<|im_start|>"@;
    assert(Seq::<char>::empty() + m + Seq::<char>::empty() =~= m);
    assert(is_part(m, m));
    lemma_parts_occur(m, m);
}

/// A template with a Llama 3 marker and none of ChatML gives the Llama 3 format: the
/// result starts with the beginning of the text and a header, each message is closed by
/// `<|eot_id|>`, and the result ends with the assistant's header.
pub proof fn law_llama3_markers_give_llama3(
    template: Seq<char>,
    user: Seq<char>,
    system: Option<Seq<char>>,
)
    requires
        is_part("<|start_header_id|>"@, template) || is_part("<|eot_id|>"@, template),
        !is_part("<|im_start|>"@, template),
        !is_part("<|im_end|>"@, template),
    ensures
        "<|begin_of_text|><|start_header_id|>"@.is_prefix_of(wrapped(template, user, system)),
        "<|eot_id|><|start_header_id|>assistant<|end_header_id|>\n\n"@.is_suffix_of(
            wrapped(template, user, system),
        ),
        system is None ==> wrapped(template, user, system)
            == "<|begin_of_text|><|start_header_id|>user<|end_header_id|>\n\n"@ + user
            + "<|eot_id|><|start_header_id|>assistant<|end_header_id|>\n\n"@,
        system matches Some(s) ==> wrapped(template, user, system)
            == "<|begin_of_text|><|start_header_id|>system<|end_header_id|>\n\n"@ + s
            + "<|eot_id|><|start_header_id|>user<|end_header_id|>\n\n"@ + user
            + "<|eot_id|><|start_header_id|>assistant<|end_header_id|>\n\n"@,
{
    lemma_parts_occur("<|im_start|>"@, template);
    lemma_parts_occur("<|im_end|>"@, template);
    lemma_parts_occur("<|start_header_id|>"@, template);
    lemma_parts_occur("<|eot_id|>"@, template);
    lemma_llama3_text(user, system);
}

/// A template with an instruction marker and none of the other formats gives the Llama 2
/// format: one instruction, with the system prompt inside.
pub proof fn law_instruction_markers_give_llama2(
    template: Seq<char>,
    user: Seq<char>,
    system: Option<Seq<char>>,
)
    requires
        is_part("[INST]"@, template) || is_part("[/INST]"@, template),
        !is_part("<|im_start|>"@, template),
        !is_part("<|im_end|>"@, template),
        !is_part("<|start_header_id|>"@, template),
        !is_part("<|eot_id|>"@, template),
    ensures
        "[INST]"@.is_prefix_of(wrapped(template, user, system)),
        "[/INST]"@.is_suffix_of(wrapped(template, user, system)),
        system is None ==> wrapped(template, user, system) == "[INST] "@ + user + " [/INST]"@,
        system matches Some(s) ==> wrapped(template, user, system) == "[INST] <<SYS>>\n"@ + s
            + "\n<</SYS>>\n\n"@ + user + " [/INST]"@,
{
    lemma_parts_occur("<|im_start|>"@, template);
    lemma_parts_occur("<|im_end|>"@, template);
    lemma_parts_occur("<|start_header_id|>"@, template);
    lemma_parts_occur("<|eot_id|>"@, template);
    lemma_parts_occur("[INST]"@, template);
    lemma_parts_occur("[/INST]"@, template);
    lemma_llama2_text(user, system);
}

proof fn lemma_chatml_text(user: Seq<char>, system: Option<Seq<char>>)
    ensures
        ({
            let w = opening(TemplateType::ChatMl, system) + user + closing(TemplateType::ChatMl);
            &&& system is None ==> w == "<|im_start|>user\n"@ + user
                + "<|im_end|>\n<|im_start|>assistant\n"@
            &&& system matches Some(s) ==> w == "<|im_start|>system\n"@ + s
                + "<|im_end|>\n<|im_start|>user\n"@ + user
                + "<|im_end|>\n<|im_start|>assistant\n"@
            &&& "<|im_start|>"@.is_prefix_of(w)
        }),
{
    reveal_strlit("<|im_start|>");
    reveal_strlit("<|im_start|>system\n");
    reveal_strlit("<|im_start|>user\n");
    reveal_strlit("<|im_end|>\n");
    reveal_strlit("<|im_start|>assistant\n");
    reveal_strlit("<|im_end|>\n<|im_start|>user\n");
    reveal_strlit("<|im_end|>\n<|im_start|>assistant\n");
    assert("<|im_end|>\n<|im_start|>user\n"@ =~= "<|im_end|>\n"@ + "<|im_start|>user\n"@);
    assert("<|im_end|>\n<|im_start|>assistant\n"@ =~= "<|im_end|>\n"@
        + "<|im_start|>assistant\n"@);
    assert("<|im_start|>"@ =~= "<|im_start|>system\n"@.take(12));
    assert("<|im_start|>"@ =~= "<|im_start|>user\n"@.take(12));
    let w = opening(TemplateType::ChatMl, system) + user + closing(TemplateType::ChatMl);
    match system {
        None => {
            assert("<|im_start|>user\n"@.take(12) =~= w.take(12));
            assert(w =~= "<|im_start|>user\n"@ + user + "<|im_end|>\n<|im_start|>assistant\n"@);
        },
        Some(s) => {
            assert("<|im_start|>system\n"@.take(12) =~= w.take(12));
            assert(w =~= "<|im_start|>system\n"@ + s + "<|im_end|>\n<|im_start|>user\n"@ + user
                + "<|im_end|>\n<|im_start|>assistant\n"@);
        },
    }
}

proof fn lemma_llama3_text(user: Seq<char>, system: Option<Seq<char>>)
    ensures
        ({
            let w = opening(TemplateType::Llama3, system) + user + closing(TemplateType::Llama3);
            let end = "<|eot_id|><|start_header_id|>assistant<|end_header_id|>\n\n"@;
            &&& "<|begin_of_text|><|start_header_id|>"@.is_prefix_of(w)
            &&& end.is_suffix_of(w)
            &&& system is None ==> w
                == "<|begin_of_text|><|start_header_id|>user<|end_header_id|>\n\n"@ + user + end
            &&& system matches Some(s) ==> w
                == "<|begin_of_text|><|start_header_id|>system<|end_header_id|>\n\n"@ + s
                + "<|eot_id|><|start_header_id|>user<|end_header_id|>\n\n"@ + user + end
        }),
{
    reveal_strlit("<|begin_of_text|>");
    reveal_strlit("<|begin_of_text|><|start_header_id|>");
    reveal_strlit("<|eot_id|>");
    reveal_strlit("<|start_header_id|>system<|end_header_id|>\n\n");
    reveal_strlit("<|start_header_id|>user<|end_header_id|>\n\n");
    reveal_strlit("<|start_header_id|>assistant<|end_header_id|>\n\n");
    reveal_strlit("<|begin_of_text|><|start_header_id|>user<|end_header_id|>\n\n");
    reveal_strlit("<|begin_of_text|><|start_header_id|>system<|end_header_id|>\n\n");
    reveal_strlit("<|eot_id|><|start_header_id|>user<|end_header_id|>\n\n");
    reveal_strlit("<|eot_id|><|start_header_id|>assistant<|end_header_id|>\n\n");
    let head = "<|begin_of_text|><|start_header_id|>"@;
    let end = "<|eot_id|><|start_header_id|>assistant<|end_header_id|>\n\n"@;
    let user_head = "<|begin_of_text|><|start_header_id|>user<|end_header_id|>\n\n"@;
    let system_head = "<|begin_of_text|><|start_header_id|>system<|end_header_id|>\n\n"@;
    let next_head = "<|eot_id|><|start_header_id|>user<|end_header_id|>\n\n"@;
    assert(end =~= closing(TemplateType::Llama3));
    assert(user_head =~= "<|begin_of_text|>"@ + "<|start_header_id|>user<|end_header_id|>\n\n"@);
    assert(system_head =~= "<|begin_of_text|>"@
        + "<|start_header_id|>system<|end_header_id|>\n\n"@);
    assert(next_head =~= "<|eot_id|>"@ + "<|start_header_id|>user<|end_header_id|>\n\n"@);
    assert(head =~= user_head.take(head.len() as int));
    assert(head =~= system_head.take(head.len() as int));
    let w = opening(TemplateType::Llama3, system) + user + closing(TemplateType::Llama3);
    match system {
        None => {
            assert(w =~= user_head + user + end);
            assert(w.take(head.len() as int) =~= user_head.take(head.len() as int));
        },
        Some(s) => {
            assert(w =~= system_head + s + next_head + user + end);
            assert(w.take(head.len() as int) =~= system_head.take(head.len() as int));
        },
    }
    assert(w.skip(w.len() - end.len()) =~= end);
}

proof fn lemma_llama2_text(user: Seq<char>, system: Option<Seq<char>>)
    ensures
        ({
            let w = opening(TemplateType::Llama2, system) + user + closing(TemplateType::Llama2);
            &&& "[INST]"@.is_prefix_of(w)
            &&& "[/INST]"@.is_suffix_of(w)
            &&& system is None ==> w == "[INST] "@ + user + " [/INST]"@
            &&& system matches Some(s) ==> w == "[INST] <<SYS>>\n"@ + s + "\n<</SYS>>\n\n"@ + user
                + " [/INST]"@
        }),
{
    reveal_strlit("[INST]");
    reveal_strlit("[/INST]");
    reveal_strlit("[INST] ");
    reveal_strlit(" [/INST]");
    reveal_strlit("<<SYS>>\n");
    reveal_strlit("[INST] <<SYS>>\n");
    assert("[INST] <<SYS>>\n"@ =~= "[INST] "@ + "<<SYS>>\n"@);
    assert("[INST]"@ =~= "[INST] "@.take(6));
    assert("[/INST]"@ =~= " [/INST]"@.skip(1));
    let w = opening(TemplateType::Llama2, system) + user + closing(TemplateType::Llama2);
    match system {
        None => {},
        Some(s) => {
            assert(w =~= "[INST] <<SYS>>\n"@ + s + "\n<</SYS>>\n\n"@ + user + " [/INST]"@);
        },
    }
    assert(w.take(6) =~= "[INST] "@.take(6));
    assert(w.skip(w.len() - 7) =~= " [/INST]"@.skip(1));
}

/// A model without a template gets the prompt as it is, and the system prompt is not used.
pub proof fn law_without_a_template_nothing_is_added(prompt: Seq<char>, system: Option<Seq<char>>)
    ensures
        prompt_text(None, prompt, system) == prompt,
{
}

/// Behind every `<` of a text, `n` places on, stands a character that `f` takes.
pub open spec fn behind_angles(s: Seq<char>, n: int, f: spec_fn(char) -> bool) -> bool {
    forall|k: int| 0 <= k < s.len() && #[trigger] s[k] == '<' ==> k + n < s.len() && f(s[k + n])
}

proof fn lemma_behind_angles(a: Seq<char>, b: Seq<char>, n: int, f: spec_fn(char) -> bool)
    requires
        0 <= n,
        behind_angles(a, n, f),
        behind_angles(b, n, f),
    ensures
        behind_angles(a + b, n, f),
{
    let s = a + b;
    assert forall|k: int| 0 <= k < s.len() && #[trigger] s[k] == '<' implies k + n < s.len() && f(
        s[k + n],
    ) by {
        if k < a.len() {
            assert(a[k] == '<');
            assert(s[k + n] == a[k + n]);
        } else {
            assert(b[k - a.len()] == '<');
            assert(s[k + n] == b[k - a.len() + n]);
        }
    }
}

proof fn lemma_plain_text(s: Seq<char>, n: int, f: spec_fn(char) -> bool)
    requires
        !s.contains('<'),
    ensures
        behind_angles(s, n, f),
{
    assert forall|k: int| 0 <= k < s.len() implies #[trigger] s[k] != '<' by {
        if s[k] == '<' {
            assert(s.contains('<'));
        }
    }
}

proof fn lemma_chatml_angles(user: Seq<char>, system: Option<Seq<char>>)
    requires
        !user.contains('<'),
        system matches Some(s) ==> !s.contains('<'),
    ensures
        behind_angles(
            opening(TemplateType::ChatMl, system) + user + closing(TemplateType::ChatMl),
            2,
            |c: char| c == 'i',
        ),
{
    let f = |c: char| c == 'i';
    reveal_strlit("<|im_start|>system\n");
    reveal_strlit("<|im_start|>user\n");
    reveal_strlit("<|im_end|>\n");
    reveal_strlit("<|im_start|>assistant\n");
    let (a, b, c, d) = (
        "<|im_start|>system\n"@,
        "<|im_end|>\n"@,
        "<|im_start|>user\n"@,
        "<|im_start|>assistant\n"@,
    );
    assert(a[2] == 'i' && b[2] == 'i' && c[2] == 'i' && d[2] == 'i');
    assert(behind_angles(a, 2, f));
    assert(behind_angles(b, 2, f));
    assert(behind_angles(c, 2, f));
    assert(behind_angles(d, 2, f));
    lemma_plain_text(user, 2, f);
    let kind = TemplateType::ChatMl;
    if let Some(s) = system {
        lemma_plain_text(s, 2, f);
        lemma_behind_angles(a, s, 2, f);
        lemma_behind_angles(a + s, b, 2, f);
        lemma_behind_angles(a + s + b, c, 2, f);
    }
    lemma_behind_angles(opening(kind, system), user, 2, f);
    lemma_behind_angles(b, d, 2, f);
    lemma_behind_angles(opening(kind, system) + user, closing(kind), 2, f);
}

#[verifier::spinoff_prover]
#[verifier::rlimit(40)]
proof fn lemma_llama3_angles(user: Seq<char>, system: Option<Seq<char>>)
    requires
        !user.contains('<'),
        system matches Some(s) ==> !s.contains('<'),
    ensures
        behind_angles(
            opening(TemplateType::Llama3, system) + user + closing(TemplateType::Llama3),
            2,
            |c: char| c != 'i',
        ),
{
    let f = |c: char| c != 'i';
    reveal_strlit("<|begin_of_text|>");
    reveal_strlit("<|start_header_id|>system<|end_header_id|>\n\n");
    reveal_strlit("<|start_header_id|>user<|end_header_id|>\n\n");
    reveal_strlit("<|start_header_id|>assistant<|end_header_id|>\n\n");
    reveal_strlit("<|eot_id|>");
    let (a, b, c, d, e) = (
        "<|begin_of_text|>"@,
        "<|start_header_id|>system<|end_header_id|>\n\n"@,
        "<|eot_id|>"@,
        "<|start_header_id|>user<|end_header_id|>\n\n"@,
        "<|start_header_id|>assistant<|end_header_id|>\n\n"@,
    );
    assert(a[2] == 'b' && b[2] == 's' && c[2] == 'e' && d[2] == 's' && e[2] == 's');
    assert(b[27] == 'e' && d[25] == 'e' && e[30] == 'e');
    assert(behind_angles(a, 2, f));
    assert(behind_angles(b, 2, f));
    assert(behind_angles(c, 2, f));
    assert(behind_angles(d, 2, f));
    assert(behind_angles(e, 2, f));
    lemma_plain_text(user, 2, f);
    let kind = TemplateType::Llama3;
    match system {
        Some(s) => {
            lemma_plain_text(s, 2, f);
            lemma_behind_angles(a, b, 2, f);
            lemma_behind_angles(a + b, s, 2, f);
            lemma_behind_angles(a + b + s, c, 2, f);
            lemma_behind_angles(a + b + s + c, d, 2, f);
        },
        None => {
            lemma_behind_angles(a, d, 2, f);
        },
    }
    lemma_behind_angles(opening(kind, system), user, 2, f);
    lemma_behind_angles(c, e, 2, f);
    lemma_behind_angles(opening(kind, system) + user, closing(kind), 2, f);
}

proof fn lemma_llama2_angles(user: Seq<char>, system: Option<Seq<char>>)
    requires
        !user.contains('<'),
        system matches Some(s) ==> !s.contains('<'),
    ensures
        behind_angles(
            opening(TemplateType::Llama2, system) + user + closing(TemplateType::Llama2),
            1,
            |c: char| c != '|',
        ),
{
    let f = |c: char| c != '|';
    reveal_strlit("[INST] ");
    reveal_strlit("<<SYS>>\n");
    reveal_strlit("\n<</SYS>>\n\n");
    reveal_strlit(" [/INST]");
    let (a, b, c, d) = ("[INST] "@, "<<SYS>>\n"@, "\n<</SYS>>\n\n"@, " [/INST]"@);
    assert(b[1] == '<' && b[2] == 'S' && c[2] == '<' && c[3] == '/');
    assert(behind_angles(a, 1, f));
    assert(behind_angles(b, 1, f));
    assert(behind_angles(c, 1, f));
    assert(behind_angles(d, 1, f));
    lemma_plain_text(user, 1, f);
    let kind = TemplateType::Llama2;
    if let Some(s) = system {
        lemma_plain_text(s, 1, f);
        lemma_behind_angles(a, b, 1, f);
        lemma_behind_angles(a + b, s, 1, f);
        lemma_behind_angles(a + b + s, c, 1, f);
    }
    lemma_behind_angles(opening(kind, system), user, 1, f);
    lemma_behind_angles(opening(kind, system) + user, closing(kind), 1, f);
}

/// A control marker of ChatML or of Llama 3 stands in the result only where the template is
/// of that format, or, for ChatML, has no known marker at all: prompts without such markers
/// do not get those of another format.
pub proof fn law_markers_belong_to_the_format(
    template: Seq<char>,
    user: Seq<char>,
    system: Option<Seq<char>>,
)
    requires
        !user.contains('<'),
        system matches Some(s) ==> !s.contains('<'),
    ensures
        is_part("<|start_header_id|>"@, wrapped(template, user, system)) || is_part(
            "<|eot_id|>"@,
            wrapped(template, user, system),
        ) ==> {
            &&& is_part("<|start_header_id|>"@, template) || is_part("<|eot_id|>"@, template)
            &&& !is_part("<|im_start|>"@, template) && !is_part("<|im_end|>"@, template)
        },
        is_part("<|im_start|>"@, wrapped(template, user, system)) ==> {
            ||| is_part("<|im_start|>"@, template) || is_part("<|im_end|>"@, template)
            ||| {
                &&& !is_part("<|start_header_id|>"@, template)
                &&& !is_part("<|eot_id|>"@, template)
                &&& !is_part("[INST]"@, template)
                &&& !is_part("[/INST]"@, template)
            }
        },
{
    lemma_parts_occur("<|im_start|>"@, template);
    lemma_parts_occur("<|im_end|>"@, template);
    lemma_parts_occur("<|start_header_id|>"@, template);
    lemma_parts_occur("<|eot_id|>"@, template);
    lemma_parts_occur("[INST]"@, template);
    lemma_parts_occur("[/INST]"@, template);
    lemma_chatml_angles(user, system);
    lemma_llama3_angles(user, system);
    lemma_llama2_angles(user, system);
    reveal_strlit("<|start_header_id|>");
    reveal_strlit("<|eot_id|>");
    reveal_strlit("<|im_start|>");
    let w = wrapped(template, user, system);
    let (h, e, m) = ("<|start_header_id|>"@, "<|eot_id|>"@, "<|im_start|>"@);
    lemma_marker_inside(h, w);
    lemma_marker_inside(e, w);
    lemma_marker_inside(m, w);
}

proof fn lemma_marker_inside(m: Seq<char>, w: Seq<char>)
    requires
        m.len() > 2,
        m[0] == '<',
    ensures
        is_part(m, w) ==> exists|k: int|
            0 <= k && k + 2 < w.len() && #[trigger] w[k] == '<' && w[k + 1] == m[1] && w[k + 2]
                == m[2],
{
    if is_part(m, w) {
        let (a, b) = choose|a: Seq<char>, b: Seq<char>| #[trigger] (a + m + b) == w;
        let k = a.len() as int;
        assert(w[k] == m[0] && w[k + 1] == m[1] && w[k + 2] == m[2]);
    }
}

} // verus!
