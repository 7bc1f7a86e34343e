//! The providers that transcribe and summarize: what they are asked, and what
//! their replies mean.
use vstd::prelude::*;

use crate::events::{int_json, no_members};
use crate::json::{
    as_text, integer_json, items_model, json_number, json_text, member, string_json, write_json,
    Json, JsonView,
};
use crate::number::{decimal, format_i64};
use crate::summary::{local_summary, summarize_locally, SummaryDocument, SummaryView};
use crate::text::{
    chars_of, cleaned, concat2, concat3, has_prefix, has_suffix, opt_str,
    opt_text, strip_prefix, strip_suffix, text_of, trim, trim_end_slashes, trimmed, trimmed_option,
    without_end_slashes,
};
use crate::transcription::reply;
use crate::windows::document_reply;

verus! {

/// Where a provider is, and how it is used.
#[derive(Debug, Clone, PartialEq)]
pub struct ProviderConfig {
    pub base_url: String,
    pub api_key: String,
    pub model: String,
}

/// The configuration of a provider, which needs all of its settings; nothing
/// where the service has to do without the provider.
pub open spec fn provider_of(
    base_url: Option<String>,
    api_key: Option<String>,
    model: Option<String>,
) -> Option<ProviderConfig> {
    match (base_url, api_key, model) {
        (Some(base_url), Some(api_key), Some(model)) => Some(
            ProviderConfig { base_url, api_key, model },
        ),
        _ => None,
    }
}

/// The configuration of a provider, which needs all of its settings; nothing
/// where the service has to do without the provider.
pub fn configured_provider(
    base_url: Option<String>,
    api_key: Option<String>,
    model: Option<String>,
) -> (config: Option<ProviderConfig>)
    ensures
        config == provider_of(base_url, api_key, model),
{
    match (base_url, api_key, model) {
        (Some(base_url), Some(api_key), Some(model)) => Some(
            ProviderConfig { base_url, api_key, model },
        ),
        _ => None,
    }
}

/// The text that a segment came with, which spares the transcription; nothing
/// where it is blank.
pub open spec fn reused(existing: Option<Seq<char>>) -> Option<Seq<char>> {
    cleaned(existing)
}

/// The text that a segment came with, which spares the transcription; nothing
/// where it is blank.
pub fn reused_transcript(existing: Option<&str>) -> (text: Option<String>)
    ensures
        opt_text(text) == reused(opt_str(existing)),
{
    match existing {
        Some(text) => trimmed_option(text.to_owned()),
        None => None,
    }
}

/// Stands in for a transcriber where none is configured.
#[derive(Debug, Clone, Copy)]
pub struct LocalTranscriber;

/// What is said where nothing is transcribed.
pub open spec fn local_transcript(existing: Option<Seq<char>>) -> Seq<char> {
    match cleaned(existing) {
        Some(text) => text,
        None => "[transcript provider not configured]"@,
    }
}

impl LocalTranscriber {
    /// The text that the segment came with, or a note that nothing is transcribed.
    pub fn transcribe(&self, file_path: &str, existing: Option<&str>) -> (text: Result<
        String,
        String,
    >)
        ensures
            reply(text) == Ok::<Seq<char>, Seq<char>>(local_transcript(opt_str(existing))),
    {
        match reused_transcript(existing) {
            Some(text) => Ok(text),
            None => Ok("[transcript provider not configured]".to_owned()),
        }
    }
}

/// Stands in for a summarizer where none is configured.
#[derive(Debug, Clone, Copy)]
pub struct LocalSummarizer;

impl LocalSummarizer {
    /// The sentences of the transcript as key points.
    pub fn summarize(&self, start_ms: i64, end_ms: i64, transcript: &str) -> (document: Result<
        SummaryDocument,
        String,
    >)
        ensures
            document_reply(document) == Ok::<SummaryView, Seq<char>>(local_summary(transcript@)),
    {
        Ok(summarize_locally(transcript))
    }
}

/// Where audio is sent to be transcribed.
pub open spec fn transcription_endpoint(base_url: Seq<char>) -> Seq<char> {
    trim_end_slashes(base_url) + "/audio/transcriptions"@
}

/// Where a transcript is sent to be summarized.
pub open spec fn summary_endpoint(base_url: Seq<char>) -> Seq<char> {
    trim_end_slashes(base_url) + "/chat/completions"@
}

/// Where audio is sent to be transcribed.
pub fn transcription_url(base_url: &str) -> (url: String)
    ensures
        url@ == transcription_endpoint(base_url@),
{
    concat2(without_end_slashes(base_url).as_str(), "/audio/transcriptions")
}

/// Where a transcript is sent to be summarized.
pub fn summary_url(base_url: &str) -> (url: String)
    ensures
        url@ == summary_endpoint(base_url@),
{
    concat2(without_end_slashes(base_url).as_str(), "/chat/completions")
}

/// Whether an HTTP status tells of success.
pub open spec fn is_success(code: u16) -> bool {
    200 <= code < 300
}

/// What a transcriber's reply means: a text, or why there is none.
pub open spec fn transcription_replied(code: u16, status: Seq<char>, body: JsonView) -> Result<
    Seq<char>,
    Seq<char>,
> {
    if !is_success(code) {
        Err("ASR provider returned "@ + status + (": "@ + json_text(body)))
    } else {
        match member(body, "text"@) {
            Some(JsonView::Str(text)) => Ok(text),
            _ => Err("ASR response does not contain text"@),
        }
    }
}

/// What a transcriber's reply means. `status` is the status as a text.
pub fn read_transcription(code: u16, status: &str, body: Json) -> (text: Result<String, String>)
    ensures
        reply(text) == transcription_replied(code, status@, body@),
{
    if code < 200 || code >= 300 {
        let shown = concat2(": ", write_json(body).as_str());
        return Err(concat3("ASR provider returned ", status, shown.as_str()));
    }
    let found = match body.get("text") {
        Some(value) => value.as_str(),
        None => None,
    };
    match found {
        Some(text) => Ok(text.to_owned()),
        None => Err("ASR response does not contain text".to_owned()),
    }
}

/// What a summarizer is told to do.
pub open spec fn instructions() -> Seq<char> {
    "Return only valid JSON matching this schema: {\"topics\":[],\"decisions\":[],\"action_items\":[{\"content\":\"\",\"owner\":null,\"due_date\":null,\"status\":\"open\"}],\"open_questions\":[],\"risks\":[],\"key_points\":[]}. Extract facts from the meeting transcript. Do not invent details."@
}

/// What a summarizer is given.
pub open spec fn material(start_ms: i64, end_ms: i64, transcript: Seq<char>) -> Seq<char> {
    "Meeting window "@ + decimal(start_ms as int) + "-"@ + (decimal(end_ms as int)
        + " ms.\nTranscript:\n"@ + transcript)
}

/// A message to a summarizer.
pub open spec fn message(role: Seq<char>, content: Seq<char>) -> JsonView {
    JsonView::Object(
        no_members().insert("role"@, JsonView::Str(role)).insert(
            "content"@,
            JsonView::Str(content),
        ),
    )
}

/// The request for the summary of a window.
pub open spec fn summary_request(
    model: Seq<char>,
    start_ms: i64,
    end_ms: i64,
    transcript: Seq<char>,
) -> JsonView {
    JsonView::Object(
        no_members().insert("model"@, JsonView::Str(model)).insert("temperature"@, int_json(0)).insert(
            "response_format"@,
            JsonView::Object(no_members().insert("type"@, JsonView::Str("json_object"@))),
        ).insert(
            "messages"@,
            JsonView::Array(
                seq![
                    message("system"@, instructions()),
                    message("user"@, material(start_ms, end_ms, transcript)),
                ],
            ),
        ),
    )
}

fn message_json(role: &str, content: &str) -> (json: Json)
    ensures
        json@ == message(role@, content@),
{
    let mut json = Json::Null;
    json.set("role", string_json(role));
    json.set("content", string_json(content));
    json
}

/// The request for the summary of a window.
pub fn request_summary(model: &str, start_ms: i64, end_ms: i64, transcript: &str) -> (json: Json)
    ensures
        json@ == summary_request(model@, start_ms, end_ms, transcript@),
{
    let span = concat3("Meeting window ", format_i64(start_ms).as_str(), "-");
    let rest = concat3(format_i64(end_ms).as_str(), " ms.\nTranscript:\n", transcript);
    let user = concat2(span.as_str(), rest.as_str());
    let system = "Return only valid JSON matching this schema: {\"topics\":[],\"decisions\":[],\"action_items\":[{\"content\":\"\",\"owner\":null,\"due_date\":null,\"status\":\"open\"}],\"open_questions\":[],\"risks\":[],\"key_points\":[]}. Extract facts from the meeting transcript. Do not invent details.";
    let mut messages: Vec<Json> = Vec::new();
    messages.push(message_json("system", system));
    messages.push(message_json("user", user.as_str()));
    assert(items_model(messages@) =~= seq![
        message("system"@, instructions()),
        message("user"@, material(start_ms, end_ms, transcript@)),
    ]);
    let mut format = Json::Null;
    format.set("type", string_json("json_object"));
    let mut json = Json::Null;
    json.set("model", string_json(model));
    json.set("temperature", integer_json(0));
    json.set("response_format", format);
    json.set("messages", Json::Array(messages));
    json
}

/// How many characters of a provider's reply are logged.
pub const LOGGED_CHARS: usize = 2000;

/// What is logged of a provider's reply.
pub open spec fn logged(text: Seq<char>) -> Seq<char> {
    if text.len() > LOGGED_CHARS {
        text.take(LOGGED_CHARS as int)
    } else {
        text
    }
}

/// What is logged of a provider's reply: all of it, or its beginning where it is long.
pub fn logged_reply(text: &str) -> (shown: String)
    ensures
        shown@ == logged(text@),
{
    let chars = chars_of(text);
    if chars.len() > LOGGED_CHARS {
        text_of(&chars, 0, LOGGED_CHARS)
    } else {
        text.to_owned()
    }
}

/// The first of a list, or what an object holds under the key `0`.
pub open spec fn zeroth(v: JsonView) -> Option<JsonView> {
    match v {
        JsonView::Array(items) => if items.len() > 0 {
            Some(items[0])
        } else {
            None
        },
        _ => member(v, "0"@),
    }
}

/// What a chat reply says: `choices[0].message.content`.
pub open spec fn reply_content(body: JsonView) -> Option<Seq<char>> {
    match member(body, "choices"@) {
        None => None,
        Some(choices) => match zeroth(choices) {
            None => None,
            Some(choice) => match member(choice, "message"@) {
                None => None,
                Some(said) => match member(said, "content"@) {
                    None => None,
                    Some(content) => as_text(content),
                },
            },
        },
    }
}

/// The text inside a Markdown fence for JSON, or the text itself where it stands
/// in none; without the white space around it.
pub open spec fn unfenced(content: Seq<char>) -> Seq<char> {
    let inner = trimmed(content);
    let open = "```json"@;
    let close = "```"@;
    if has_prefix(inner, open) && has_suffix(inner.skip(open.len() as int), close) {
        let rest = inner.skip(open.len() as int);
        trimmed(rest.take(rest.len() - close.len()))
    } else {
        trimmed(content)
    }
}

/// What a summarizer's reply means: the text of a document, or why there is none.
pub open spec fn summary_replied(code: u16, status: Seq<char>, body: JsonView) -> Result<
    Seq<char>,
    Seq<char>,
> {
    if !is_success(code) {
        Err("LLM provider returned "@ + status + (": "@ + json_text(body)))
    } else {
        match reply_content(body) {
            Some(content) => Ok(unfenced(content)),
            None => Err("LLM response does not contain choices[0].message.content"@),
        }
    }
}

fn content_of_reply(body: &Json) -> (content: Option<&str>)
    ensures
        opt_str(content) == reply_content(body@),
{
    let choices = match body.get("choices") {
        Some(choices) => choices,
        None => return None,
    };
    let choice = match choices {
        Json::Array(items) => {
            if items.len() == 0 {
                return None;
            }
            &items[0]
        },
        _ => match choices.get("0") {
            Some(choice) => choice,
            None => return None,
        },
    };
    match choice.get("message") {
        Some(said) => match said.get("content") {
            Some(content) => content.as_str(),
            None => None,
        },
        None => None,
    }
}

/// The text inside a Markdown fence for JSON, or the text itself.
pub fn without_fence(content: &str) -> (text: String)
    ensures
        text@ == unfenced(content@),
{
    let inner = trim(content);
    match strip_prefix(inner.as_str(), "```json") {
        Some(rest) => match strip_suffix(rest.as_str(), "```") {
            Some(text) => trim(text.as_str()),
            None => inner,
        },
        None => inner,
    }
}

/// What a summarizer's reply means. `status` is the status as a text.
pub fn read_summary(code: u16, status: &str, body: Json) -> (text: Result<String, String>)
    ensures
        reply(text) == summary_replied(code, status@, body@),
{
    if code < 200 || code >= 300 {
        let shown = concat2(": ", write_json(body).as_str());
        return Err(concat3("LLM provider returned ", status, shown.as_str()));
    }
    match content_of_reply(&body) {
        Some(content) => Ok(without_fence(content)),
        None => Err("LLM response does not contain choices[0].message.content".to_owned()),
    }
}

/// Why the text that a summarizer gave is not a document.
pub fn invalid_document(reason: &str) -> (text: String)
    ensures
        text@ == "invalid SummaryDocument JSON: "@ + reason@,
{
    concat2("invalid SummaryDocument JSON: ", reason)
}

/// A segment that came with a text needs no transcriber: whichever one is used,
/// its text is the one it came with.
pub proof fn law_existing_text_is_kept(existing: Seq<char>)
    requires
        trimmed(existing).len() > 0,
    ensures
        local_transcript(Some(existing)) == trimmed(existing),
        cleaned(Some(existing)) == Some(trimmed(existing)),
{
}

/// A document in a fence is the document.
pub proof fn law_fence_is_removed(text: Seq<char>)
    ensures
        unfenced("```json"@ + text + "```"@) == trimmed(text),
{
    let open = "```json"@;
    let close = "```"@;
    let all = open + text + close;
    reveal_strlit("```json");
    reveal_strlit("```");
    assert(open.len() == 7 && open[0] == '`');
    assert(close.len() == 3 && close[2] == '`');
    assert(all[0] == '`');
    assert(all[all.len() - 1] == '`');
    assert(crate::text::trim_start(all) == all);
    assert(crate::text::trim_end(all) == all);
    assert(all.take(7) =~= open);
    let rest = all.skip(7);
    assert(rest =~= text + close);
    assert(rest.skip(rest.len() - 3) =~= close);
    assert(rest.take(rest.len() - 3) =~= text);
}

/// A provider is used exactly if all its settings are there, and then with these settings.
pub proof fn law_provider_needs_all_settings(
    base_url: Option<String>,
    api_key: Option<String>,
    model: Option<String>,
)
    ensures
        provider_of(base_url, api_key, model) is Some <==> base_url is Some && api_key is Some
            && model is Some,
        provider_of(base_url, api_key, model) matches Some(config) ==> Some(config.base_url)
            == base_url && Some(config.api_key) == api_key && Some(config.model) == model,
{
}

/// A segment that came with a text is not transcribed, its text is used, trimmed; one that
/// came with none, or with a blank one, is.
pub proof fn law_text_that_came_is_reused(existing: Seq<char>)
    ensures
        trimmed(existing).len() > 0 ==> reused(Some(existing)) == Some(trimmed(existing)),
        trimmed(existing).len() == 0 ==> reused(Some(existing)) is None,
        reused(None) is None,
        trimmed(existing).len() == 0 ==> local_transcript(Some(existing)) == local_transcript(None),
        local_transcript(None) == "[transcript provider not configured]"@,
{
}

/// What is asked of a provider goes to its address, without the slashes at the end, and
/// there to the place for what is asked; slashes at the end of the address make no
/// difference.
pub proof fn law_provider_is_asked_at_its_address(base_url: Seq<char>)
    ensures
        transcription_endpoint(base_url) == trim_end_slashes(base_url) + "/audio/transcriptions"@,
        summary_endpoint(base_url) == trim_end_slashes(base_url) + "/chat/completions"@,
        transcription_endpoint(base_url.push('/')) == transcription_endpoint(base_url),
        summary_endpoint(base_url.push('/')) == summary_endpoint(base_url),
{
    assert(base_url.push('/').drop_last() =~= base_url);
}

/// A transcriber that succeeds gives the text of its reply, as it is; a reply without a text
/// is a failure, and so is any that does not tell of success.
pub proof fn law_transcript_is_the_text_of_the_reply(code: u16, status: Seq<char>, body: JsonView)
    ensures
        transcription_replied(code, status, body) is Ok <==> 200 <= code <= 299 && body is Object
            && body->Object_0.contains_key("text"@) && body->Object_0["text"@] is Str,
        transcription_replied(code, status, body) matches Ok(text) ==> body->Object_0["text"@]
            == JsonView::Str(text),
        !(200 <= code <= 299) ==> transcription_replied(code, status, body) == Err::<
            Seq<char>,
            Seq<char>,
        >("ASR provider returned "@ + status + (": "@ + json_text(body))),
{
}

/// A summarizer that succeeds gives what the message of its first choice says, taken out of
/// its fence; a reply without such a message is a failure, and so is any that does not tell
/// of success.
pub proof fn law_summary_is_the_first_choice(
    code: u16,
    status: Seq<char>,
    body: JsonView,
    choices: Seq<JsonView>,
)
    requires
        body is Object,
        body->Object_0.contains_key("choices"@),
        body->Object_0["choices"@] == JsonView::Array(choices),
    ensures
        ({
            let said = choices.len() > 0 && choices[0] is Object
                && choices[0]->Object_0.contains_key("message"@)
                && choices[0]->Object_0["message"@] is Object
                && choices[0]->Object_0["message"@]->Object_0.contains_key("content"@)
                && choices[0]->Object_0["message"@]->Object_0["content"@] is Str;
            &&& 200 <= code <= 299 && said ==> summary_replied(code, status, body) == Ok::<
                Seq<char>,
                Seq<char>,
            >(unfenced(choices[0]->Object_0["message"@]->Object_0["content"@]->Str_0))
            &&& 200 <= code <= 299 && !said ==> summary_replied(code, status, body) is Err
            &&& !(200 <= code <= 299) ==> summary_replied(code, status, body) == Err::<
                Seq<char>,
                Seq<char>,
            >("LLM provider returned "@ + status + (": "@ + json_text(body)))
        }),
{
}

/// A text that, white space at its ends left aside, is a document in a fence, is that
/// document; any other text is taken as it is, trimmed.
pub proof fn law_only_a_fence_is_removed(content: Seq<char>, text: Seq<char>)
    ensures
        trimmed(content) == "```json"@ + text + "```"@ ==> unfenced(content) == trimmed(text),
        (forall|inner: Seq<char>| trimmed(content) != #[trigger] ("```json"@ + inner) + "```"@)
            ==> unfenced(content) == trimmed(content),
{
    let open = "```json"@;
    let close = "```"@;
    let all = trimmed(content);
    reveal_strlit("```json");
    reveal_strlit("```");
    assert(open.len() == 7 && close.len() == 3);
    if all == open + text + close {
        assert(all.take(7) =~= open);
        let rest = all.skip(7);
        assert(rest =~= text + close);
        assert(rest.skip(rest.len() - 3) =~= close);
        assert(rest.take(rest.len() - 3) =~= text);
    }
    if has_prefix(all, open) && has_suffix(all.skip(7), close) {
        let rest = all.skip(7);
        let inner = rest.take(rest.len() - 3);
        assert(all =~= open + inner + close);
    }
}

/// The request for a summary names the model, asks for an object, leaves nothing to chance,
/// and has two messages, what is to be done and what was said. What was said is the whole
/// transcript, behind the span of time that it is from.
pub proof fn law_request_holds_the_transcript(
    model: Seq<char>,
    start_ms: i64,
    end_ms: i64,
    transcript: Seq<char>,
)
    ensures
        ({
            let v = summary_request(model, start_ms, end_ms, transcript);
            let o = v->Object_0;
            let messages = o["messages"@]->Array_0;
            let format = o["response_format"@];
            &&& v is Object
            &&& o.dom() == set!["model"@, "temperature"@, "response_format"@, "messages"@]
            &&& o["model"@] == JsonView::Str(model)
            &&& o["temperature"@] == JsonView::Number(json_number(0))
            &&& format is Object
            &&& format->Object_0.dom() == set!["type"@]
            &&& format->Object_0["type"@] == JsonView::Str("json_object"@)
            &&& o["messages"@] is Array
            &&& messages.len() == 2
            &&& messages[0] is Object && messages[1] is Object
            &&& messages[0]->Object_0.dom() == set!["role"@, "content"@]
            &&& messages[1]->Object_0.dom() == set!["role"@, "content"@]
            &&& messages[0]->Object_0["role"@] == JsonView::Str("system"@)
            &&& messages[0]->Object_0["content"@] == JsonView::Str(instructions())
            &&& messages[1]->Object_0["role"@] == JsonView::Str("user"@)
            &&& messages[1]->Object_0["content"@] == JsonView::Str(
                "Meeting window "@ + decimal(start_ms as int) + "-"@ + decimal(end_ms as int)
                    + " ms.\nTranscript:\n"@ + transcript,
            )
        }),
{
    reveal_strlit("model");
    reveal_strlit("temperature");
    reveal_strlit("response_format");
    reveal_strlit("messages");
    reveal_strlit("role");
    reveal_strlit("content");
    assert("model"@.len() == 5 && "temperature"@.len() == 11 && "response_format"@.len() == 15
        && "messages"@.len() == 8 && "role"@.len() == 4 && "content"@.len() == 7);
    let v = summary_request(model, start_ms, end_ms, transcript);
    assert(v->Object_0.dom() =~= set![
        "model"@,
        "temperature"@,
        "response_format"@,
        "messages"@,
    ]);
    assert(v->Object_0["response_format"@]->Object_0.dom() =~= set!["type"@]);
    let messages = v->Object_0["messages"@]->Array_0;
    assert(messages[0]->Object_0.dom() =~= set!["role"@, "content"@]);
    assert(messages[1]->Object_0.dom() =~= set!["role"@, "content"@]);
    assert(material(start_ms, end_ms, transcript) =~= "Meeting window "@ + decimal(start_ms as int)
        + "-"@ + decimal(end_ms as int) + " ms.\nTranscript:\n"@ + transcript);
}

/// Of a provider's reply the beginning is logged, up to two thousand characters; a shorter
/// reply is logged whole.
pub proof fn law_beginning_of_a_reply_is_logged(text: Seq<char>)
    ensures
        text.len() <= 2000 ==> logged(text) == text,
        text.len() > 2000 ==> logged(text).len() == 2000 && logged(text) == text.take(2000),
{
}

/// A reply whose choices are no list but an object is read like a list whose first item
/// stands under the key `0`.
pub proof fn law_choices_of_an_object(
    code: u16,
    status: Seq<char>,
    body: JsonView,
    other: JsonView,
    choices: Map<Seq<char>, JsonView>,
)
    requires
        body is Object && other is Object,
        body->Object_0.contains_key("choices"@) && other->Object_0.contains_key("choices"@),
        body->Object_0["choices"@] == JsonView::Object(choices),
        choices.contains_key("0"@),
        other->Object_0["choices"@] == JsonView::Array(seq![choices["0"@]]),
        200 <= code <= 299,
    ensures
        summary_replied(code, status, body) == summary_replied(code, status, other),
{
}

} // verus!
