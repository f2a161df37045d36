//! Measuring the token estimator against a provider's own count.
//!
//! A fixed corpus, one request per traffic class, is estimated here and
//! counted by a provider. The percentages between the two are floating point
//! and come in as they are to be printed.

use super::tokens::{
    estimate_messages, estimate_tool_specs, messages_tokens, tools_tokens, try_estimate_tool_specs,
};
use crate::json::{entries_view, text_list, Json, Value};
use crate::message::{
    messages_view, plain_message, tools_view, CallView, Message, MessageRole, MessageView,
    SandboxMode, ToolCall, ToolSpec, ToolView,
};
use crate::text::{
    a_part_holds_for_the_whole, chars_of, decimal, holding_is_standing_between, holds,
    push_decimal, texts,
};
use vstd::prelude::*;

verus! {

/// Where the generated block of the record begins.
pub const BEGIN_MARKER: &'static str = "<!-- BEGIN GENERATED CALIBRATION -->";

/// Where it ends.
pub const END_MARKER: &'static str = "<!-- END GENERATED CALIBRATION -->";

/// One request whose estimate is compared against the provider's count.
pub struct Case {
    /// Names the traffic class, and keys the record.
    pub id: &'static str,
    /// What this class is, and why it is in the corpus.
    pub note: &'static str,
    pub messages: Vec<Message>,
    pub tools: Vec<ToolSpec>,
}

/// What a [`Case`] stands for.
#[verifier::ext_equal]
pub struct CaseView {
    pub id: Seq<char>,
    pub note: Seq<char>,
    pub messages: Seq<MessageView>,
    pub tools: Seq<ToolView>,
}

impl View for Case {
    type V = CaseView;

    open spec fn view(&self) -> CaseView {
        CaseView {
            id: self.id@,
            note: self.note@,
            messages: messages_view(self.messages@),
            tools: tools_view(self.tools@),
        }
    }
}

/// The characters of several messages.
pub open spec fn content_chars(messages: Seq<MessageView>) -> nat
    decreases messages.len(),
{
    if messages.len() == 0 {
        0
    } else {
        content_chars(messages.drop_last()) + messages.last().content.len()
    }
}

/// The estimate of a case: its messages and its tool schemas.
pub open spec fn case_tokens(case: CaseView) -> int {
    messages_tokens(case.messages) + tools_tokens(case.tools)
}

impl Case {
    /// What assembling this request would record as its tokens.
    pub fn estimated_tokens(&self) -> (tokens: usize)
        requires
            case_tokens(self@) <= usize::MAX,
        ensures
            tokens == case_tokens(self@),
    {
        proof {
            super::tokens::lemma_messages_nonnegative(messages_view(self.messages@));
            super::tokens::lemma_tools_nonnegative(tools_view(self.tools@));
        }
        estimate_messages(&self.messages) + estimate_tool_specs(&self.tools)
    }

    /// The same, or `None` when there are more tokens than can be counted.
    pub fn try_estimated_tokens(&self) -> (tokens: Option<usize>)
        requires
            messages_tokens(messages_view(self.messages@)) <= usize::MAX,
        ensures
            tokens is Some <==> case_tokens(self@) <= usize::MAX,
            tokens matches Some(n) ==> n == case_tokens(self@),
    {
        proof {
            super::tokens::lemma_messages_nonnegative(messages_view(self.messages@));
            super::tokens::lemma_tools_nonnegative(tools_view(self.tools@));
        }
        let messages: usize = estimate_messages(&self.messages);
        match try_estimate_tool_specs(&self.tools) {
            Some(tools) => if tools > usize::MAX - messages {
                None
            } else {
                Some(self.estimated_tokens())
            },
            None => None,
        }
    }

    /// Characters across every message body: a corpus edited after a recording
    /// no longer describes the numbers stored beside it.
    pub fn chars(&self) -> (total: usize)
        requires
            content_chars(messages_view(self.messages@)) <= usize::MAX,
        ensures
            total == content_chars(messages_view(self.messages@)),
    {
        let ghost all = messages_view(self.messages@);
        let mut total: usize = 0;
        let mut i: usize = 0;
        assert(all.take(0) =~= Seq::empty());
        while i < self.messages.len()
            invariant
                i <= self.messages@.len(),
                all == messages_view(self.messages@),
                content_chars(all) <= usize::MAX,
                total == content_chars(all.take(i as int)),
            decreases self.messages@.len() - i,
        {
            proof {
                assert(all.take(i + 1).drop_last() =~= all.take(i as int));
                assert(all[i as int] == self.messages@[i as int]@);
                lemma_content_chars(all, i + 1);
            }
            let chars: usize = chars_of(self.messages[i].content.as_str()).len();
            total = total + chars;
            i = i + 1;
        }
        assert(all.take(all.len() as int) =~= all);
        total
    }
}

proof fn lemma_content_chars(messages: Seq<MessageView>, n: int)
    requires
        0 <= n <= messages.len(),
    ensures
        content_chars(messages.take(n)) <= content_chars(messages),
    decreases messages.len() - n,
{
    if n < messages.len() {
        lemma_content_chars(messages, n + 1);
        assert(messages.take(n + 1).drop_last() =~= messages.take(n));
    } else {
        assert(messages.take(n) =~= messages);
    }
}

/// An object with two texts: what something is, and what it is for.
pub open spec fn described(kind: Seq<char>, description: Seq<char>) -> Value {
    Value::Object(
        seq![("description"@, Value::Text(description)), ("type"@, Value::Text(kind))],
    )
}

fn describe(kind: &str, description: &str) -> (out: Json)
    ensures
        out@ == described(kind@, description@),
{
    let mut entries: Vec<(String, Json)> = Vec::new();
    entries.push(("description".to_owned(), Json::text(description)));
    entries.push(("type".to_owned(), Json::text(kind)));
    assert(entries_view(entries@) =~= described(kind@, description@)->Object_0);
    Json::object(entries)
}

/// The schema of an object with these properties.
pub open spec fn object_schema(
    properties: Seq<(Seq<char>, Value)>,
    required: Seq<Seq<char>>,
) -> Value {
    Value::Object(
        seq![
            ("properties"@, Value::Object(properties)),
            ("required"@, text_list(required)),
            ("type"@, Value::Text("object"@)),
        ],
    )
}

fn schema(properties: Vec<(String, Json)>, required: &Vec<String>) -> (out: Json)
    ensures
        out@ == object_schema(entries_view(properties@), texts(required@)),
{
    let ghost inner = entries_view(properties@);
    let mut entries: Vec<(String, Json)> = Vec::new();
    entries.push(("properties".to_owned(), Json::object(properties)));
    entries.push(("required".to_owned(), Json::text_list(required)));
    entries.push(("type".to_owned(), Json::text("object")));
    assert(entries_view(entries@) =~= object_schema(inner, texts(required@))->Object_0);
    Json::object(entries)
}

/// A shell tool, close in size to a real one.
pub open spec fn shell_tool() -> ToolView {
    ToolView {
        name: "shell"@,
        description: SHELL_DESCRIPTION@,
        input_schema: object_schema(
            seq![
                (
                    "args"@,
                    Value::Object(
                        seq![
                            ("description"@, Value::Text("Arguments passed to the command."@)),
                            (
                                "items"@,
                                Value::Object(seq![("type"@, Value::Text("string"@))]),
                            ),
                            ("type"@, Value::Text("array"@)),
                        ],
                    ),
                ),
                ("command"@, described("string"@, "The command to run."@)),
                ("cwd"@, described("string"@, "Working directory."@)),
                ("timeout_ms"@, described("integer"@, "Deadline in milliseconds."@)),
            ],
            seq!["command"@],
        ),
        sandbox: SandboxMode::WorkspaceWrite,
        timeout_ms: Some(30_000),
    }
}

/// What the shell tool says of itself.
pub const SHELL_DESCRIPTION: &'static str = "Run a shell command in the workspace and return its combined output. Output beyond the configured limit is truncated in the middle.";

fn shell_spec() -> (out: ToolSpec)
    ensures
        out@ == shell_tool(),
{
    let mut item: Vec<(String, Json)> = Vec::new();
    item.push(("type".to_owned(), Json::text("string")));
    assert(entries_view(item@) =~= seq![("type"@, Value::Text("string"@))]);
    let mut args: Vec<(String, Json)> = Vec::new();
    args.push(("description".to_owned(), Json::text("Arguments passed to the command.")));
    args.push(("items".to_owned(), Json::object(item)));
    args.push(("type".to_owned(), Json::text("array")));
    assert(entries_view(args@) =~= seq![
        ("description"@, Value::Text("Arguments passed to the command."@)),
        ("items"@, Value::Object(seq![("type"@, Value::Text("string"@))])),
        ("type"@, Value::Text("array"@)),
    ]);
    let mut properties: Vec<(String, Json)> = Vec::new();
    properties.push(("args".to_owned(), Json::object(args)));
    properties.push(("command".to_owned(), describe("string", "The command to run.")));
    properties.push(("cwd".to_owned(), describe("string", "Working directory.")));
    properties.push(
        ("timeout_ms".to_owned(), describe("integer", "Deadline in milliseconds.")),
    );
    let mut required: Vec<String> = Vec::new();
    required.push("command".to_owned());
    let ghost names = seq!["command"@];
    assert(texts(required@) =~= names);
    let out = ToolSpec {
        name: "shell".to_owned(),
        description: SHELL_DESCRIPTION.to_owned(),
        input_schema: schema(properties, &required),
        sandbox: SandboxMode::WorkspaceWrite,
        timeout_ms: Some(30_000),
    };
    assert(out@.input_schema->Object_0[0].1->Object_0
        =~= shell_tool().input_schema->Object_0[0].1->Object_0);
    assert(out@.input_schema->Object_0 =~= shell_tool().input_schema->Object_0);
    assert(out@ =~= shell_tool());
    out
}

/// A file tool, close in size to a real one.
pub open spec fn file_tool() -> ToolView {
    ToolView {
        name: "file"@,
        description: "Read, write, append to, or list files under the workspace root."@,
        input_schema: object_schema(
            seq![
                ("content"@, described("string"@, "Body, for write and append."@)),
                (
                    "operation"@,
                    Value::Object(
                        seq![
                            ("description"@, Value::Text("What to do."@)),
                            ("enum"@, text_list(seq!["read"@, "write"@, "append"@, "list"@])),
                            ("type"@, Value::Text("string"@)),
                        ],
                    ),
                ),
                ("path"@, described("string"@, "Workspace-relative path."@)),
            ],
            seq!["operation"@, "path"@],
        ),
        sandbox: SandboxMode::WorkspaceWrite,
        timeout_ms: Some(10_000),
    }
}

fn file_spec() -> (out: ToolSpec)
    ensures
        out@ == file_tool(),
{
    let mut choices: Vec<String> = Vec::new();
    choices.push("read".to_owned());
    choices.push("write".to_owned());
    choices.push("append".to_owned());
    choices.push("list".to_owned());
    assert(texts(choices@) =~= seq!["read"@, "write"@, "append"@, "list"@]);
    let mut operation: Vec<(String, Json)> = Vec::new();
    operation.push(("description".to_owned(), Json::text("What to do.")));
    operation.push(("enum".to_owned(), Json::text_list(&choices)));
    operation.push(("type".to_owned(), Json::text("string")));
    assert(entries_view(operation@) =~= seq![
        ("description"@, Value::Text("What to do."@)),
        ("enum"@, text_list(seq!["read"@, "write"@, "append"@, "list"@])),
        ("type"@, Value::Text("string"@)),
    ]);
    let mut properties: Vec<(String, Json)> = Vec::new();
    properties.push(("content".to_owned(), describe("string", "Body, for write and append.")));
    properties.push(("operation".to_owned(), Json::object(operation)));
    properties.push(("path".to_owned(), describe("string", "Workspace-relative path.")));
    let mut required: Vec<String> = Vec::new();
    required.push("operation".to_owned());
    required.push("path".to_owned());
    assert(texts(required@) =~= seq!["operation"@, "path"@]);
    let out = ToolSpec {
        name: "file".to_owned(),
        description: "Read, write, append to, or list files under the workspace root.".to_owned(),
        input_schema: schema(properties, &required),
        sandbox: SandboxMode::WorkspaceWrite,
        timeout_ms: Some(10_000),
    };
    assert(out@.input_schema->Object_0[0].1->Object_0
        =~= file_tool().input_schema->Object_0[0].1->Object_0);
    assert(out@.input_schema->Object_0 =~= file_tool().input_schema->Object_0);
    assert(out@ =~= file_tool());
    out
}

/// English prose, in the register a user actually writes in.
pub const ENGLISH_PROSE: &'static str = "The gateway has been restarting every few minutes since yesterday afternoon and I cannot tell from the log whether it is the Feishu long connection dropping or the process itself dying. The last few lines before each restart are always the websocket read returning an error, but there is no panic and no exit code recorded anywhere I can find. I would like to know whether the reconnect path is being taken at all, and if it is, why it does not seem to recover the way the Telegram poller does. If it turns out to be the proxy interfering, say so plainly rather than adding another retry layer on top of one that is already not working.";

/// Chinese prose of comparable substance.
pub const CHINESE_PROSE: &'static str = "网关从昨天下午开始每隔几分钟就重启一次，我从日志里看不出到底是飞书的长连接断了，还是进程自己挂了。每次重启前的最后几行都是 websocket 读取返回错误，但既没有 panic，也没有在任何地方记录退出码。我想知道重连的分支到底有没有走到，如果走到了，为什么它没有像 Telegram 的轮询那样恢复过来。如果最后查出来是代理在中间捣乱，就直接说清楚，不要在一个本来就没起作用的重试上面再加一层重试。";

/// Chinese with English identifiers embedded.
pub const MIXED_PROSE: &'static str = "请帮我看一下 crates/agentos-core/src/prompt/tokens.rs 里的 estimate_text，它对 ASCII 用 4:1，对非 ASCII 按每字符一个 token 计算。我想确认这个偏高的估计在 DeepSeek 上到底偏了多少，如果误差超过 15%，就要重新校准 pressure_percent 这个阈值。";

/// Symbol-dense ASCII.
pub const CODE_BLOCK: &'static str = "```rust\npub fn estimate_text(text: &str) -> usize {\n    let mut ascii = 0usize;\n    let mut wide = 0usize;\n    for character in text.chars() {\n        if character.is_ascii() { ascii += 1; } else { wide += 1; }\n    }\n    ascii.div_ceil(ASCII_CHARS_PER_TOKEN) + wide\n}\n```\nWhy does `div_ceil` matter here? Because `4 / 4 == 1` but `5 / 4 == 1` too, and rounding down is an under-estimate — the one direction this must never take.";

/// The note on `minimal`.
pub const MINIMAL_NOTE: &'static str = "One short user turn. Measures the provider's fixed per-request overhead, which every other case's error should be read against.";

/// The note on `english_prose`.
pub const ENGLISH_NOTE: &'static str = "English, the register the 4:1 rule was derived from.";

/// The note on `chinese_prose`.
pub const CHINESE_NOTE: &'static str = "Chinese. A 4:1 divisor under-counts this by about four times, which is why the estimator counts wide characters one for one.";

/// The note on `mixed_scripts`.
pub const MIXED_NOTE: &'static str = "Chinese with English identifiers embedded. This deployment's normal case.";

/// The note on `code_block`.
pub const CODE_NOTE: &'static str = "Symbol-dense ASCII. Code tokenizes worse than 4:1, so this is where the estimate is most likely to fall below the truth.";

/// The note on `multi_turn`.
pub const MULTI_TURN_NOTE: &'static str = "A system turn plus four conversational turns. Isolates the per-message overhead constant, which a single-message case cannot separate from the provider's fixed cost.";

/// The note on `tool_schemas`.
pub const TOOL_SCHEMAS_NOTE: &'static str = "A short turn plus two tool schemas. Schemas carry no messages but occupy the same window, and on a small request they outweigh the conversation.";

/// The note on `tool_round_trip`.
pub const TOOL_ROUND_TRIP_NOTE: &'static str = "An assistant tool-call turn and its result. The shape that grows a transcript fastest, and the one whose cost is easiest to miss because the assistant message has almost no text.";

/// The arguments of the call in `tool_round_trip`.
pub const ROUND_TRIP_ARGS: &'static str = "{\"command\":\"tail\",\"args\":[\"-n\",\"20\",\"workspace/gateway.log\"]}";

/// The result of the call in `tool_round_trip`.
pub const ROUND_TRIP_OUTPUT: &'static str = "2026-08-17T03:11:02Z INFO agentos_core::gateway shard=0 conversation=telegram:8814 turn started\n2026-08-17T03:11:04Z INFO agentos_llm::usage provider=deepseek model=deepseek-chat input=1841 output=96\n2026-08-17T03:11:04Z INFO agentos_core::loop plan_finished turn=0\n";

/// A case of one user turn and no tools.
pub open spec fn one_turn(id: Seq<char>, note: Seq<char>, text: Seq<char>) -> CaseView {
    CaseView {
        id,
        note,
        messages: seq![plain_message(MessageRole::User, text)],
        tools: Seq::empty(),
    }
}

fn one_turn_case(id: &'static str, note: &'static str, text: &str) -> (out: Case)
    ensures
        out@ == one_turn(id@, note@, text@),
{
    let mut messages: Vec<Message> = Vec::new();
    messages.push(Message::text(MessageRole::User, text));
    let out = Case { id, note, messages, tools: Vec::new() };
    assert(out@ =~= one_turn(id@, note@, text@));
    out
}

/// A conversation of several turns.
pub open spec fn conversation() -> CaseView {
    CaseView {
        id: "multi_turn"@,
        note: MULTI_TURN_NOTE@,
        messages: seq![
            plain_message(
                MessageRole::System,
                "You are a careful engineering assistant. Answer briefly."@,
            ),
            plain_message(MessageRole::User, "Is the gateway running?"@),
            plain_message(
                MessageRole::Assistant,
                "Yes — pid 4812, up for six hours, two channels attached."@,
            ),
            plain_message(MessageRole::User, "网关现在有多少个会话在跑？"@),
            plain_message(
                MessageRole::Assistant,
                "Three conversations are active across two shards."@,
            ),
        ],
        tools: Seq::empty(),
    }
}

fn conversation_case() -> (out: Case)
    ensures
        out@ == conversation(),
{
    let mut messages: Vec<Message> = Vec::new();
    messages.push(
        Message::text(
            MessageRole::System,
            "You are a careful engineering assistant. Answer briefly.",
        ),
    );
    messages.push(Message::text(MessageRole::User, "Is the gateway running?"));
    messages.push(
        Message::text(
            MessageRole::Assistant,
            "Yes — pid 4812, up for six hours, two channels attached.",
        ),
    );
    messages.push(Message::text(MessageRole::User, "网关现在有多少个会话在跑？"));
    messages.push(
        Message::text(
            MessageRole::Assistant,
            "Three conversations are active across two shards.",
        ),
    );
    let out = Case { id: "multi_turn", note: MULTI_TURN_NOTE, messages, tools: Vec::new() };
    assert(out@ =~= conversation());
    out
}

/// A short turn with two tools on offer.
pub open spec fn offered_tools() -> CaseView {
    CaseView {
        id: "tool_schemas"@,
        note: TOOL_SCHEMAS_NOTE@,
        messages: seq![
            plain_message(
                MessageRole::User,
                "List the files under workspace/skills and tell me which are stale."@,
            ),
        ],
        tools: seq![shell_tool(), file_tool()],
    }
}

fn offered_tools_case() -> (out: Case)
    ensures
        out@ == offered_tools(),
{
    let mut messages: Vec<Message> = Vec::new();
    messages.push(
        Message::text(
            MessageRole::User,
            "List the files under workspace/skills and tell me which are stale.",
        ),
    );
    let mut tools: Vec<ToolSpec> = Vec::new();
    tools.push(shell_spec());
    tools.push(file_spec());
    let out = Case { id: "tool_schemas", note: TOOL_SCHEMAS_NOTE, messages, tools };
    assert(out@ =~= offered_tools());
    out
}

/// A tool call and its result.
pub open spec fn round_trip() -> CaseView {
    CaseView {
        id: "tool_round_trip"@,
        note: TOOL_ROUND_TRIP_NOTE@,
        messages: seq![
            plain_message(
                MessageRole::User,
                "Show me the last twenty lines of the gateway log."@,
            ),
            MessageView {
                tool_calls: seq![
                    CallView {
                        id: "call_calibration_1"@,
                        name: "shell"@,
                        args: ROUND_TRIP_ARGS@,
                    },
                ],
                ..plain_message(MessageRole::Assistant, ""@)
            },
            MessageView {
                tool_call_id: Some("call_calibration_1"@),
                ..plain_message(MessageRole::Tool, ROUND_TRIP_OUTPUT@)
            },
        ],
        tools: seq![shell_tool()],
    }
}

fn round_trip_case() -> (out: Case)
    ensures
        out@ == round_trip(),
{
    let mut calls: Vec<ToolCall> = Vec::new();
    calls.push(
        ToolCall {
            id: "call_calibration_1".to_owned(),
            name: "shell".to_owned(),
            args: ROUND_TRIP_ARGS.to_owned(),
        },
    );
    let mut asked = Message::text(MessageRole::Assistant, "");
    asked.tool_calls = calls;
    let mut answered = Message::text(MessageRole::Tool, ROUND_TRIP_OUTPUT);
    answered.tool_call_id = Some("call_calibration_1".to_owned());
    assert(asked@ =~= round_trip().messages[1]);
    assert(answered@ =~= round_trip().messages[2]);
    let mut messages: Vec<Message> = Vec::new();
    messages.push(
        Message::text(MessageRole::User, "Show me the last twenty lines of the gateway log."),
    );
    messages.push(asked);
    messages.push(answered);
    let mut tools: Vec<ToolSpec> = Vec::new();
    tools.push(shell_spec());
    let out = Case { id: "tool_round_trip", note: TOOL_ROUND_TRIP_NOTE, messages, tools };
    assert(out@ =~= round_trip());
    out
}

/// The cases of a list.
pub open spec fn cases_view(cases: Seq<Case>) -> Seq<CaseView> {
    cases.map_values(|c: Case| c@)
}

/// The traffic classes the estimator is measured against.
pub open spec fn classes() -> Seq<CaseView> {
    seq![
        one_turn("minimal"@, MINIMAL_NOTE@, "ping"@),
        one_turn("english_prose"@, ENGLISH_NOTE@, ENGLISH_PROSE@),
        one_turn("chinese_prose"@, CHINESE_NOTE@, CHINESE_PROSE@),
        one_turn("mixed_scripts"@, MIXED_NOTE@, MIXED_PROSE@),
        one_turn("code_block"@, CODE_NOTE@, CODE_BLOCK@),
        conversation(),
        offered_tools(),
        round_trip(),
    ]
}

/// Builds [`classes`].
pub fn corpus() -> (cases: Vec<Case>)
    ensures
        cases_view(cases@) == classes(),
{
    let mut cases: Vec<Case> = Vec::new();
    cases.push(one_turn_case("minimal", MINIMAL_NOTE, "ping"));
    cases.push(one_turn_case("english_prose", ENGLISH_NOTE, ENGLISH_PROSE));
    cases.push(one_turn_case("chinese_prose", CHINESE_NOTE, CHINESE_PROSE));
    cases.push(one_turn_case("mixed_scripts", MIXED_NOTE, MIXED_PROSE));
    cases.push(one_turn_case("code_block", CODE_NOTE, CODE_BLOCK));
    cases.push(conversation_case());
    cases.push(offered_tools_case());
    cases.push(round_trip_case());
    assert(cases_view(cases@) =~= classes());
    cases
}

/// No two cases share an id: ids key the record.
pub proof fn case_ids_are_distinct(i: int, j: int)
    requires
        0 <= i < j < classes().len(),
    ensures
        classes()[i].id != classes()[j].id,
{
    reveal_strlit("minimal");
    reveal_strlit("english_prose");
    reveal_strlit("chinese_prose");
    reveal_strlit("mixed_scripts");
    reveal_strlit("code_block");
    reveal_strlit("multi_turn");
    reveal_strlit("tool_schemas");
    reveal_strlit("tool_round_trip");
    assert("minimal"@.len() == 7);
    assert("english_prose"@.len() == 13 && "english_prose"@[0] == 'e');
    assert("chinese_prose"@.len() == 13 && "chinese_prose"@[0] == 'c');
    assert("mixed_scripts"@.len() == 13 && "mixed_scripts"@[0] == 'm');
    assert("code_block"@.len() == 10 && "code_block"@[0] == 'c');
    assert("multi_turn"@.len() == 10 && "multi_turn"@[0] == 'm');
    assert("tool_schemas"@.len() == 12);
    assert("tool_round_trip"@.len() == 15);
}

/// One case's estimate beside the provider's own count.
pub struct Sample {
    pub case: String,
    /// Corpus fingerprint.
    pub chars: usize,
    pub messages: usize,
    pub tools: usize,
    pub estimated_tokens: usize,
    /// The tokens the provider reported.
    pub actual_tokens: u64,
}

/// One live run's record.
pub struct Calibration {
    pub provider: String,
    pub model: String,
    /// UTC date of the run.
    pub recorded_at: String,
    pub samples: Vec<Sample>,
}

/// The percentages of a run, as they are printed.
pub struct ReportFigures {
    /// Cases within the target.
    pub within_target: usize,
    pub target: String,
    pub median_abs: String,
    pub mean_error: String,
    pub worst_over: String,
    pub worst_under: String,
    /// The error of each sample, in order.
    pub errors: Vec<String>,
}

/// The line that says what was measured.
pub open spec fn report_opening(c: Calibration) -> Seq<char> {
    "Recorded "@ + c.recorded_at@ + " against `"@ + c.model@ + "` on `"@ + c.provider@ + "`.\n\n"@
}

/// The line that sums up.
pub open spec fn report_summary(samples: nat, f: ReportFigures) -> Seq<char> {
    "**"@ + decimal(f.within_target as nat) + " of "@ + decimal(samples) + " cases within ±"@
        + f.target@ + "%.** Median absolute error "@ + f.median_abs@ + "%, mean signed error "@
        + f.mean_error@ + "%. Worst over-estimate "@ + f.worst_over@
        + "%, worst under-estimate "@ + f.worst_under@ + "%.\n\n"@
}

/// The row of one sample.
pub open spec fn report_row(s: Sample, error: Seq<char>) -> Seq<char> {
    "| `"@ + s.case@ + "` | "@ + decimal(s.chars as nat) + " | "@ + decimal(
        s.estimated_tokens as nat,
    ) + " | "@ + decimal(s.actual_tokens as nat) + " | "@ + error + "% |\n"@
}

/// The rows of the first `n` samples.
pub open spec fn report_rows(samples: Seq<Sample>, errors: Seq<Seq<char>>, n: int) -> Seq<char>
    decreases n,
{
    if n <= 0 {
        Seq::empty()
    } else {
        report_rows(samples, errors, n - 1) + report_row(samples[n - 1], errors[n - 1])
    }
}

/// The notes on the first `n` cases.
pub open spec fn report_notes(cases: Seq<CaseView>, n: int) -> Seq<char>
    decreases n,
{
    if n <= 0 {
        Seq::empty()
    } else {
        report_notes(cases, n - 1) + "- **`"@ + cases[n - 1].id + "`** — "@ + cases[n - 1].note
            + "\n"@
    }
}

/// The record of a run, as it is read.
pub open spec fn report(c: Calibration, f: ReportFigures) -> Seq<char> {
    report_opening(c) + report_summary(c.samples@.len(), f) + TABLE_HEAD@ + report_rows(
        c.samples@,
        texts(f.errors@),
        c.samples@.len() as int,
    ) + "\n## What each case is\n\n"@ + report_notes(classes(), classes().len() as int)
}

/// The head of the table.
pub const TABLE_HEAD: &'static str = "| Case | Chars | Estimated | Actual | Error |\n|---|---:|---:|---:|---:|\n";

fn push_row(out: &mut String, s: &Sample, error: &str)
    ensures
        final(out)@ == old(out)@ + report_row(*s, error@),
{
    out.push_str("| `");
    out.push_str(s.case.as_str());
    out.push_str("` | ");
    push_decimal(out, s.chars as u64);
    out.push_str(" | ");
    push_decimal(out, s.estimated_tokens as u64);
    out.push_str(" | ");
    push_decimal(out, s.actual_tokens);
    out.push_str(" | ");
    out.push_str(error);
    out.push_str("% |\n");
    assert(out@ =~= old(out)@ + report_row(*s, error@));
}

fn push_notes(out: &mut String)
    ensures
        final(out)@ == old(out)@ + report_notes(classes(), classes().len() as int),
{
    let cases = corpus();
    let ghost all = classes();
    let ghost base = out@;
    let mut i: usize = 0;
    assert(all.len() == cases@.len());
    assert(base + report_notes(all, 0) =~= base);
    while i < cases.len()
        invariant
            i <= cases@.len(),
            all == cases_view(cases@),
            out@ == base + report_notes(all, i as int),
        decreases cases@.len() - i,
    {
        assert(all[i as int] == cases@[i as int]@);
        out.push_str("- **`");
        out.push_str(cases[i].id);
        out.push_str("`** — ");
        out.push_str(cases[i].note);
        out.push_str("\n");
        assert(out@ =~= base + report_notes(all, i + 1));
        i = i + 1;
    }
}

fn push_summary(out: &mut String, samples: usize, figures: &ReportFigures)
    ensures
        final(out)@ == old(out)@ + report_summary(samples as nat, *figures),
{
    out.push_str("**");
    push_decimal(out, figures.within_target as u64);
    out.push_str(" of ");
    push_decimal(out, samples as u64);
    out.push_str(" cases within ±");
    out.push_str(figures.target.as_str());
    out.push_str("%.** Median absolute error ");
    out.push_str(figures.median_abs.as_str());
    out.push_str("%, mean signed error ");
    out.push_str(figures.mean_error.as_str());
    out.push_str("%. Worst over-estimate ");
    out.push_str(figures.worst_over.as_str());
    out.push_str("%, worst under-estimate ");
    out.push_str(figures.worst_under.as_str());
    out.push_str("%.\n\n");
    assert(out@ =~= old(out)@ + report_summary(samples as nat, *figures));
}

/// Writes [`report`].
pub fn report_markdown(calibration: &Calibration, figures: &ReportFigures) -> (out: String)
    requires
        figures.errors@.len() == calibration.samples@.len(),
    ensures
        out@ == report(*calibration, *figures),
{
    let mut out = "Recorded ".to_owned();
    out.push_str(calibration.recorded_at.as_str());
    out.push_str(" against `");
    out.push_str(calibration.model.as_str());
    out.push_str("` on `");
    out.push_str(calibration.provider.as_str());
    out.push_str("`.\n\n");
    push_summary(&mut out, calibration.samples.len(), figures);
    out.push_str(TABLE_HEAD);
    let ghost base = out@;
    let ghost errors = texts(figures.errors@);
    let mut i: usize = 0;
    assert(base + report_rows(calibration.samples@, errors, 0) =~= base);
    while i < calibration.samples.len()
        invariant
            i <= calibration.samples@.len(),
            figures.errors@.len() == calibration.samples@.len(),
            errors == texts(figures.errors@),
            out@ == base + report_rows(calibration.samples@, errors, i as int),
        decreases calibration.samples@.len() - i,
    {
        assert(errors[i as int] == figures.errors@[i as int]@);
        push_row(&mut out, &calibration.samples[i], figures.errors[i].as_str());
        assert(out@ =~= base + report_rows(calibration.samples@, errors, i + 1));
        i = i + 1;
    }
    out.push_str("\n## What each case is\n\n");
    push_notes(&mut out);
    assert(out@ =~= report(*calibration, *figures));
    out
}

/// The characters of messages are those each says, and a case is estimated by
/// its messages and its tools.
pub proof fn a_case_is_what_it_sends(messages: Seq<MessageView>, m: MessageView, case: CaseView)
    ensures
        content_chars(Seq::empty()) == 0,
        content_chars(messages.push(m)) == content_chars(messages) + m.content.len(),
        case_tokens(case) == messages_tokens(case.messages) + tools_tokens(case.tools),
{
    assert(messages.push(m).drop_last() =~= messages);
}

/// Every sample has its row in the record, with its estimate beside the
/// provider's count.
pub proof fn every_sample_has_its_row(c: Calibration, f: ReportFigures, i: int)
    requires
        0 <= i < c.samples@.len(),
    ensures
        holds(
            report(c, f),
            "| `"@ + c.samples@[i].case@ + "` | "@ + decimal(c.samples@[i].chars as nat) + " | "@
                + decimal(c.samples@[i].estimated_tokens as nat) + " | "@ + decimal(
                c.samples@[i].actual_tokens as nat,
            ) + " | "@ + texts(f.errors@)[i] + "% |\n"@,
        ),
{
    let n = c.samples@.len() as int;
    let rows = report_rows(c.samples@, texts(f.errors@), n);
    let row = report_row(c.samples@[i], texts(f.errors@)[i]);
    lemma_row_stands(c.samples@, texts(f.errors@), i, n);
    let left = report_opening(c) + report_summary(c.samples@.len(), f) + TABLE_HEAD@;
    let right = "\n## What each case is\n\n"@ + report_notes(classes(), classes().len() as int);
    a_part_holds_for_the_whole(left, rows, right, row);
    assert(report(c, f) =~= left + rows + right);
}

proof fn lemma_row_stands(samples: Seq<Sample>, errors: Seq<Seq<char>>, i: int, n: int)
    requires
        0 <= i < n,
    ensures
        holds(report_rows(samples, errors, n), report_row(samples[i], errors[i])),
    decreases n,
{
    let before = report_rows(samples, errors, n - 1);
    let row = report_row(samples[n - 1], errors[n - 1]);
    let none = Seq::<char>::empty();
    let rows = report_rows(samples, errors, n);
    if i == n - 1 {
        assert(rows =~= before + row + none);
        holding_is_standing_between(rows, row);
    } else {
        lemma_row_stands(samples, errors, i, n - 1);
        a_part_holds_for_the_whole(none, before, row, report_row(samples[i], errors[i]));
        assert(rows =~= none + before + row);
    }
}

} // verus!
