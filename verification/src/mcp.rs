//! The decisions of the Model Context Protocol server: which method or tool a
//! request names, which arguments it takes (with their defaults), and what the
//! session manager answers. Reading requests and writing responses, launching
//! processes and writing to their terminals are left to the caller.
use vstd::prelude::*;
use crate::grid::{after_read, history_text};
use crate::keys::{agent_id_of, is_agent_id};
use crate::session::{error_message, SessionError, SessionManager, SessionView};

verus! {

/// The arguments of a tool call, each as the request gives it (absent where
/// the request has no such field or it has the wrong type).
pub struct ToolArguments {
    pub agent_id: Option<String>,
    pub session_id: Option<String>,
    pub command: Option<String>,
    pub input: Option<String>,
    pub start_line: Option<usize>,
    pub max_lines: Option<usize>,
}

/// The parameters of a `tools/call` request: the tool's name and its arguments.
pub struct CallParams {
    pub name: Option<String>,
    pub arguments: Option<ToolArguments>,
}

/// A JSON-RPC request as the server reads it: the method and its parameters.
pub struct RpcRequest {
    pub method: String,
    pub params: Option<CallParams>,
}

/// What the server answers.
#[derive(PartialEq, Eq, Debug)]
pub enum Reply {
    /// The server's capabilities and identity.
    Initialize,
    /// The list of tools.
    ToolList,
    /// A tool result made of one text.
    Text(String),
    /// Nothing: the request was a notification.
    NoResponse,
}

/// Why a request failed.
#[derive(PartialEq, Eq, Debug)]
pub enum RequestError {
    MissingParams,
    MissingArguments,
    UnknownTool(String),
    MethodNotSupported,
    Session(SessionError),
}

/// The message of the failure `e`.
pub open spec fn request_error_message(e: RequestError) -> Seq<char> {
    match e {
        RequestError::MissingParams => "Missing params"@,
        RequestError::MissingArguments => "Missing arguments"@,
        RequestError::UnknownTool(name) => "Unknown tool "@ + name@,
        RequestError::MethodNotSupported => "Method not supported"@,
        RequestError::Session(s) => error_message(s),
    }
}

impl RequestError {
    /// The text of this failure.
    pub fn message(&self) -> (m: String)
        ensures
            m@ == request_error_message(*self),
    {
        match self {
            RequestError::MissingParams => String::from_str("Missing params"),
            RequestError::MissingArguments => String::from_str("Missing arguments"),
            RequestError::UnknownTool(name) => {
                let mut m = String::from_str("Unknown tool ");
                m.append(name.as_str());
                m
            },
            RequestError::MethodNotSupported => String::from_str("Method not supported"),
            RequestError::Session(e) => e.message(),
        }
    }
}

/// The outcome of handling a request.
pub enum Step {
    /// The request is answered.
    Done(Result<Reply, RequestError>),
    /// The agent may spawn: the caller launches `command` in a new terminal and
    /// then records the session with `McpServer::finish_spawn`.
    Launch { session_id: String, agent_id: String, command: String },
    /// The agent may write: the caller writes `input` to the terminal of
    /// session `session_id` and, if that works, answers `reply`.
    Write { session_id: String, input: String, reply: Reply },
}

/// The JSON-RPC error code the server answers every failure with.
pub const INTERNAL_ERROR: i64 = -32603;

/// The error part of a response.
#[derive(PartialEq, Eq, Debug)]
pub struct RpcError {
    pub code: i64,
    pub message: String,
}

/// A response to send back: exactly one of a result and an error.
#[derive(PartialEq, Eq, Debug)]
pub struct Response {
    pub result: Option<Reply>,
    pub error: Option<RpcError>,
}

/// The response to a request whose handling ended in `outcome` (a reply, or the
/// message of a failure); none for a notification.
pub fn respond(outcome: Result<Reply, String>) -> (r: Option<Response>)
    ensures
        r == (match outcome {
            Ok(Reply::NoResponse) => None,
            Ok(reply) => Some(Response { result: Some(reply), error: None }),
            Err(m) => Some(
                Response { result: None, error: Some(RpcError { code: INTERNAL_ERROR, message: m }) },
            ),
        }),
{
    match outcome {
        Ok(Reply::NoResponse) => None,
        Ok(reply) => Some(Response { result: Some(reply), error: None }),
        Err(message) => Some(Response { result: None, error: Some(RpcError { code: INTERNAL_ERROR, message }) }),
    }
}

/// `outcome` with a failure replaced by its message.
pub fn outcome_text(outcome: Result<Reply, RequestError>) -> (r: Result<Reply, String>)
    ensures
        outcome matches Ok(reply) ==> r == Ok::<Reply, String>(reply),
        outcome matches Err(e) ==> (r matches Err(m) && m@ == request_error_message(e)),
{
    match outcome {
        Ok(reply) => Ok(reply),
        Err(e) => Err(e.message()),
    }
}

/// The text of `o`, or `default` where it is absent.
pub open spec fn text_or(o: Option<String>, default: Seq<char>) -> Seq<char> {
    match o {
        Some(s) => s@,
        None => default,
    }
}

/// The text of `o`, or the empty text where it is absent.
pub open spec fn text_or_empty(o: Option<String>) -> Seq<char> {
    text_or(o, Seq::empty())
}

/// The agent a `read_history` call names when it names none.
pub open spec fn default_agent() -> Seq<char> {
    "default_agent"@
}

/// The reply to a successful spawn of session `id`.
pub open spec fn spawned_text(id: Seq<char>) -> Seq<char> {
    "Spawned session '"@ + id + "'"@
}

/// The reply to a successful write to session `id`.
pub open spec fn written_text(id: Seq<char>) -> Seq<char> {
    "Wrote to session '"@ + id + "'"@
}

/// A tool call of `req`: `tools/call` with parameters and arguments, and the
/// tool's name (empty where absent).
pub open spec fn tool_call(req: RpcRequest) -> Option<(Seq<char>, ToolArguments)> {
    if req.method@ == "tools/call"@ {
        match req.params {
            Some(p) => match p.arguments {
                Some(a) => Some((text_or_empty(p.name), a)),
                None => None,
            },
            None => None,
        }
    } else {
        None
    }
}

/// The method and tool names are distinct texts.
pub proof fn lemma_names_distinct()
    ensures
        "initialize"@ != "notifications/initialized"@,
        "initialize"@ != "tools/list"@,
        "initialize"@ != "tools/call"@,
        "notifications/initialized"@ != "tools/list"@,
        "notifications/initialized"@ != "tools/call"@,
        "tools/list"@ != "tools/call"@,
        "register_agent"@ != "spawn"@,
        "register_agent"@ != "read_history"@,
        "register_agent"@ != "write_stdin"@,
        "spawn"@ != "read_history"@,
        "spawn"@ != "write_stdin"@,
        "read_history"@ != "write_stdin"@,
{
    reveal_strlit("initialize");
    reveal_strlit("notifications/initialized");
    reveal_strlit("tools/list");
    reveal_strlit("tools/call");
    reveal_strlit("register_agent");
    reveal_strlit("spawn");
    reveal_strlit("read_history");
    reveal_strlit("write_stdin");
    assert("initialize"@.len() != "notifications/initialized"@.len());
    assert("initialize"@[0] != "tools/list"@[0]);
    assert("initialize"@[0] != "tools/call"@[0]);
    assert("notifications/initialized"@.len() != "tools/list"@.len());
    assert("notifications/initialized"@.len() != "tools/call"@.len());
    assert("tools/list"@[6] != "tools/call"@[6]);
    assert("register_agent"@.len() != "spawn"@.len());
    assert("register_agent"@.len() != "read_history"@.len());
    assert("register_agent"@.len() != "write_stdin"@.len());
    assert("spawn"@.len() != "read_history"@.len());
    assert("spawn"@.len() != "write_stdin"@.len());
    assert("read_history"@.len() != "write_stdin"@.len());
}

/// The server: the session manager it serves requests from.
pub struct McpServer {
    pub manager: SessionManager,
}

fn same_text(s: &String, lit: &str) -> (b: bool)
    ensures
        b == (s@ == lit@),
{
    let t = String::from_str(lit);
    *s == t
}

fn text_or_empty_of(o: &Option<String>) -> (s: String)
    ensures
        s@ == text_or_empty(*o),
{
    match o {
        Some(s) => s.clone(),
        None => String::new(),
    }
}

fn text_or_default_agent(o: &Option<String>) -> (s: String)
    ensures
        s@ == text_or(*o, default_agent()),
{
    match o {
        Some(s) => s.clone(),
        None => String::from_str("default_agent"),
    }
}

fn quoted_reply(prefix: &str, id: &String) -> (s: String)
    ensures
        s@ == prefix@ + id@ + "'"@,
{
    let mut s = String::from_str(prefix);
    s.append(id.as_str());
    s.append("'");
    s
}

impl McpServer {
    /// The server is well formed where its manager is.
    pub open spec fn wf(&self) -> bool {
        self.manager.wf()
    }

    /// A server with an empty session manager.
    pub fn new() -> (s: Self)
        ensures
            s.wf(),
            s.manager@.agents == Set::<Seq<char>>::empty(),
            s.manager@.sessions == Map::<Seq<char>, SessionView>::empty(),
    {
        McpServer { manager: SessionManager::new() }
    }

    /// Handles one request.
    pub fn handle_request(&mut self, req: &RpcRequest) -> (step: Step)
        requires
            old(self).wf(),
        ensures
            final(self).wf(),
            req.method@ == "initialize"@ ==> step == Step::Done(Ok(Reply::Initialize)) && final(self).manager@ == old(self).manager@,
            req.method@ == "notifications/initialized"@ ==> step == Step::Done(Ok(Reply::NoResponse)) && final(self).manager@ == old(self).manager@,
            req.method@ == "tools/list"@ ==> step == Step::Done(Ok(Reply::ToolList)) && final(self).manager@ == old(self).manager@,
            req.method@ != "initialize"@ && req.method@ != "notifications/initialized"@ && req.method@ != "tools/list"@ && req.method@ != "tools/call"@
                ==> step == Step::Done(Err(RequestError::MethodNotSupported)) && final(self).manager@ == old(self).manager@,
            req.method@ == "tools/call"@ && req.params is None ==> step == Step::Done(Err(RequestError::MissingParams)) && final(self).manager@ == old(self).manager@,
            req.method@ == "tools/call"@ && (req.params matches Some(p) && p.arguments is None)
                ==> step == Step::Done(Err(RequestError::MissingArguments)) && final(self).manager@ == old(self).manager@,
            tool_call(*req) matches Some((name, a)) ==> {
                let m0 = old(self).manager@;
                let m1 = final(self).manager@;
                if name == "register_agent"@ {
                    ||| step == Step::Done(Err(RequestError::Session(SessionError::KeyUnavailable))) && m1 == m0
                    ||| step matches Step::Done(Ok(Reply::Text(id))) && (exists|secret: Seq<u8>| secret.len() == 32 && id@ == #[trigger] agent_id_of(secret))
                        && is_agent_id(id@) && m1.agents == m0.agents.insert(id@) && m1.sessions == m0.sessions
                } else if name == "spawn"@ {
                    &&& m1 == m0
                    &&& m0.agents.contains(text_or_empty(a.agent_id)) ==> (step matches Step::Launch { session_id, agent_id, command }
                        && session_id@ == text_or_empty(a.session_id) && agent_id@ == text_or_empty(a.agent_id)
                        && command@ == text_or_empty(a.command))
                    &&& !m0.agents.contains(text_or_empty(a.agent_id)) ==> step == Step::Done(Err(RequestError::Session(SessionError::Unauthenticated)))
                } else if name == "read_history"@ {
                    let agent = text_or(a.agent_id, default_agent());
                    let id = text_or_empty(a.session_id);
                    &&& !m0.agents.contains(agent) ==> step == Step::Done(Err(RequestError::Session(SessionError::Unauthenticated))) && m1 == m0
                    &&& m0.agents.contains(agent) && !m0.sessions.contains_key(id) ==> (step matches Step::Done(Err(RequestError::Session(SessionError::SessionNotFound(s)))) && s@ == id) && m1 == m0
                    &&& m0.agents.contains(agent) && m0.sessions.contains_key(id) ==> {
                        let sv = m0.sessions[id];
                        &&& step matches Step::Done(Ok(Reply::Text(t))) && t@ == history_text(sv.grid, agent, a.start_line, a.max_lines)
                        &&& m1.agents == m0.agents
                        &&& m1.sessions == m0.sessions.insert(id, SessionView { instance: sv.instance, grid: after_read(sv.grid, agent, a.start_line, a.max_lines) })
                    }
                } else if name == "write_stdin"@ {
                    let agent = text_or_empty(a.agent_id);
                    let id = text_or_empty(a.session_id);
                    &&& m1 == m0
                    &&& !m0.agents.contains(agent) ==> step == Step::Done(Err(RequestError::Session(SessionError::Unauthenticated)))
                    &&& m0.agents.contains(agent) && !m0.sessions.contains_key(id) ==> (step matches Step::Done(Err(RequestError::Session(SessionError::SessionNotFound(s)))) && s@ == id)
                    &&& m0.agents.contains(agent) && m0.sessions.contains_key(id) ==> (step matches Step::Write { session_id, input, reply: Reply::Text(t) }
                        && session_id@ == id && input@ == text_or_empty(a.input) && t@ == written_text(id))
                } else {
                    &&& step matches Step::Done(Err(RequestError::UnknownTool(n))) && n@ == name
                    &&& m1 == m0
                }
            },
    {
        proof {
            lemma_names_distinct();
        }
        if same_text(&req.method, "initialize") {
            return Step::Done(Ok(Reply::Initialize));
        }
        if same_text(&req.method, "notifications/initialized") {
            return Step::Done(Ok(Reply::NoResponse));
        }
        if same_text(&req.method, "tools/list") {
            return Step::Done(Ok(Reply::ToolList));
        }
        if !same_text(&req.method, "tools/call") {
            return Step::Done(Err(RequestError::MethodNotSupported));
        }
        let params = match &req.params {
            Some(p) => p,
            None => {
                return Step::Done(Err(RequestError::MissingParams));
            },
        };
        let name = text_or_empty_of(&params.name);
        let args = match &params.arguments {
            Some(a) => a,
            None => {
                return Step::Done(Err(RequestError::MissingArguments));
            },
        };
        if same_text(&name, "register_agent") {
            match self.manager.register_agent() {
                Ok(agent_id) => Step::Done(Ok(Reply::Text(agent_id))),
                Err(e) => Step::Done(Err(RequestError::Session(e))),
            }
        } else if same_text(&name, "spawn") {
            let agent_id = text_or_empty_of(&args.agent_id);
            let id = text_or_empty_of(&args.session_id);
            let cmd = text_or_empty_of(&args.command);
            match self.manager.authenticate(agent_id.as_str()) {
                Ok(()) => Step::Launch { session_id: id, agent_id, command: cmd },
                Err(e) => Step::Done(Err(RequestError::Session(e))),
            }
        } else if same_text(&name, "read_history") {
            let agent_id = text_or_default_agent(&args.agent_id);
            let id = text_or_empty_of(&args.session_id);
            match self.manager.read_history(id.as_str(), agent_id.as_str(), args.start_line, args.max_lines) {
                Ok(output) => Step::Done(Ok(Reply::Text(output))),
                Err(e) => Step::Done(Err(RequestError::Session(e))),
            }
        } else if same_text(&name, "write_stdin") {
            let agent_id = text_or_empty_of(&args.agent_id);
            let id = text_or_empty_of(&args.session_id);
            let input = text_or_empty_of(&args.input);
            match self.manager.write_stdin(id.as_str(), agent_id.as_str()) {
                Ok(()) => {
                    let text = quoted_reply("Wrote to session '", &id);
                    Step::Write { session_id: id, input, reply: Reply::Text(text) }
                },
                Err(e) => Step::Done(Err(RequestError::Session(e))),
            }
        } else {
            Step::Done(Err(RequestError::UnknownTool(name)))
        }
    }

    /// Records session `session_id`, now running as process instance `instance`,
    /// for `agent_id`, and gives the reply to its spawn.
    pub fn finish_spawn(&mut self, session_id: &str, agent_id: &str, instance: u64) -> (r: Result<Reply, RequestError>)
        requires
            old(self).wf(),
        ensures
            final(self).wf(),
            old(self).manager@.agents.contains(agent_id@) ==> (r matches Ok(Reply::Text(t)) && t@ == spawned_text(session_id@))
                && final(self).manager@.agents == old(self).manager@.agents
                && final(self).manager@.sessions == old(self).manager@.sessions.insert(
                    session_id@,
                    SessionView { instance, grid: crate::grid::TerminalGrid::new_view() },
                ),
            !old(self).manager@.agents.contains(agent_id@) ==> r == Err::<Reply, RequestError>(RequestError::Session(SessionError::Unauthenticated))
                && final(self).manager@ == old(self).manager@,
    {
        match self.manager.spawn(session_id, agent_id, instance) {
            Ok(()) => {
                let mut t = String::from_str("Spawned session '");
                t.append(session_id);
                t.append("'");
                Ok(Reply::Text(t))
            },
            Err(e) => Err(RequestError::Session(e)),
        }
    }
}

} // verus!

verus! {

/// Who the server is, as it tells a client that initializes it.
pub struct ServerInfo {
    pub name: String,
    pub version: String,
    pub protocol_version: String,
}

/// The server's name, version and protocol version.
pub fn server_info() -> (info: ServerInfo)
    ensures
        info.name@ == "async-shell"@,
        info.version@ == "0.1.0"@,
        info.protocol_version@ == "2024-11-05"@,
{
    ServerInfo {
        name: String::from_str("async-shell"),
        version: String::from_str("0.1.0"),
        protocol_version: String::from_str("2024-11-05"),
    }
}

/// One argument of a tool: its name, its JSON type and what it means.
pub struct ParamSpec {
    pub name: String,
    pub kind: String,
    pub description: Option<String>,
}

/// A tool as the server lists it: name, description, arguments and the names
/// of those it requires.
pub struct ToolSpec {
    pub name: String,
    pub description: String,
    pub params: Vec<ParamSpec>,
    pub required: Vec<String>,
}

/// An argument as text.
pub struct ParamView {
    pub name: Seq<char>,
    pub kind: Seq<char>,
    pub description: Option<Seq<char>>,
}

/// A tool as text.
pub struct ToolView {
    pub name: Seq<char>,
    pub description: Seq<char>,
    pub params: Seq<ParamView>,
    pub required: Seq<Seq<char>>,
}

/// The text of an argument.
pub open spec fn param_view(p: ParamSpec) -> ParamView {
    ParamView {
        name: p.name@,
        kind: p.kind@,
        description: match p.description {
            Some(d) => Some(d@),
            None => None,
        },
    }
}

/// The text of a tool.
pub open spec fn tool_view(t: ToolSpec) -> ToolView {
    ToolView {
        name: t.name@,
        description: t.description@,
        params: t.params@.map_values(|p: ParamSpec| param_view(p)),
        required: t.required.deep_view(),
    }
}

/// A text argument without description.
pub open spec fn plain_text_param(name: Seq<char>) -> ParamView {
    ParamView { name, kind: "string"@, description: None }
}

/// The tools the server offers.
pub open spec fn listed_tools() -> Seq<ToolView> {
    seq![
        ToolView {
            name: "register_agent"@,
            description: "Initializes a new agent session and returns a unique Ed25519 public key (hex) to be used as your `agent_id`. You must call this once to get an ID before reading from or spawning PTYs."@,
            params: seq![],
            required: seq![],
        },
        ToolView {
            name: "spawn"@,
            description: "Spawn a background process in a PTY"@,
            params: seq![
                plain_text_param("agent_id"@),
                plain_text_param("session_id"@),
                plain_text_param("command"@),
            ],
            required: seq!["agent_id"@, "session_id"@, "command"@],
        },
        ToolView {
            name: "read_history"@,
            description: "Read the scrollback history of a background PTY. If start_line is omitted, it acts as a cursor and resumes reading exactly where this agent last left off."@,
            params: seq![
                ParamView {
                    name: "agent_id"@,
                    kind: "string"@,
                    description: Some(
                        "A unique identifier for the agent requesting the history (to track cursor positions independently)."@,
                    ),
                },
                plain_text_param("session_id"@),
                ParamView {
                    name: "start_line"@,
                    kind: "integer"@,
                    description: Some(
                        "Optional 0-indexed start line. If omitted, resumes from the agent's last read position."@,
                    ),
                },
                ParamView {
                    name: "max_lines"@,
                    kind: "integer"@,
                    description: Some("Maximum number of lines to return. Defaults to 100."@),
                },
            ],
            required: seq!["agent_id"@, "session_id"@],
        },
        ToolView {
            name: "write_stdin"@,
            description: "Send keystrokes to a background PTY"@,
            params: seq![
                plain_text_param("agent_id"@),
                plain_text_param("session_id"@),
                plain_text_param("input"@),
            ],
            required: seq!["agent_id"@, "session_id"@, "input"@],
        },
    ]
}

fn param(name: &str, kind: &str, description: Option<&str>) -> (p: ParamSpec)
    ensures
        param_view(p) == (ParamView {
            name: name@,
            kind: kind@,
            description: match description {
                Some(d) => Some(d@),
                None => None,
            },
        }),
{
    let description = match description {
        Some(d) => Some(String::from_str(d)),
        None => None,
    };
    ParamSpec { name: String::from_str(name), kind: String::from_str(kind), description }
}

fn tool(name: &str, description: &str, params: Vec<ParamSpec>, required: Vec<String>) -> (t: ToolSpec)
    ensures
        t.name@ == name@,
        t.description@ == description@,
        t.params@ == params@,
        t.required@ == required@,
{
    ToolSpec { name: String::from_str(name), description: String::from_str(description), params, required }
}

/// The tools the server offers, with their arguments.
pub fn tool_list() -> (tools: Vec<ToolSpec>)
    ensures
        tools@.map_values(|t: ToolSpec| tool_view(t)) == listed_tools(),
{
    let register = tool(
        "register_agent",
        "Initializes a new agent session and returns a unique Ed25519 public key (hex) to be used as your `agent_id`. You must call this once to get an ID before reading from or spawning PTYs.",
        Vec::new(),
        Vec::new(),
    );
    let mut spawn_params = Vec::new();
    spawn_params.push(param("agent_id", "string", None));
    spawn_params.push(param("session_id", "string", None));
    spawn_params.push(param("command", "string", None));
    let mut spawn_required = Vec::new();
    spawn_required.push(String::from_str("agent_id"));
    spawn_required.push(String::from_str("session_id"));
    spawn_required.push(String::from_str("command"));
    let spawn = tool("spawn", "Spawn a background process in a PTY", spawn_params, spawn_required);
    let mut read_params = Vec::new();
    read_params.push(param(
        "agent_id",
        "string",
        Some("A unique identifier for the agent requesting the history (to track cursor positions independently)."),
    ));
    read_params.push(param("session_id", "string", None));
    read_params.push(param(
        "start_line",
        "integer",
        Some("Optional 0-indexed start line. If omitted, resumes from the agent's last read position."),
    ));
    read_params.push(param("max_lines", "integer", Some("Maximum number of lines to return. Defaults to 100.")));
    let mut read_required = Vec::new();
    read_required.push(String::from_str("agent_id"));
    read_required.push(String::from_str("session_id"));
    let read = tool(
        "read_history",
        "Read the scrollback history of a background PTY. If start_line is omitted, it acts as a cursor and resumes reading exactly where this agent last left off.",
        read_params,
        read_required,
    );
    let mut write_params = Vec::new();
    write_params.push(param("agent_id", "string", None));
    write_params.push(param("session_id", "string", None));
    write_params.push(param("input", "string", None));
    let mut write_required = Vec::new();
    write_required.push(String::from_str("agent_id"));
    write_required.push(String::from_str("session_id"));
    write_required.push(String::from_str("input"));
    let write = tool("write_stdin", "Send keystrokes to a background PTY", write_params, write_required);
    let mut tools = Vec::new();
    tools.push(register);
    tools.push(spawn);
    tools.push(read);
    tools.push(write);
    proof {
        let v = tools@.map_values(|t: ToolSpec| tool_view(t));
        let e = listed_tools();
        assert(tool_view(tools@[0]).params =~~= e[0].params);
        assert(tool_view(tools@[0]).required =~~= e[0].required);
        assert(tool_view(tools@[1]).params =~~= e[1].params);
        assert(tool_view(tools@[1]).required =~~= e[1].required);
        assert(tool_view(tools@[2]).params =~~= e[2].params);
        assert(tool_view(tools@[2]).required =~~= e[2].required);
        assert(tool_view(tools@[3]).params =~~= e[3].params);
        assert(tool_view(tools@[3]).required =~~= e[3].required);
        assert(v =~~= e);
    }
    tools
}

} // verus!

verus! {

/// Whether `tool` takes a text argument called `name`.
pub open spec fn takes_text(tool: ToolView, name: Seq<char>) -> bool {
    exists|i: int| 0 <= i < tool.params.len() && #[trigger] tool.params[i].name == name
        && tool.params[i].kind == "string"@
}

/// The tool list advertises, for each tool, the arguments that `handle_request`
/// reads for it, as required text arguments (the paging numbers of
/// `read_history` as optional integers), and requires no argument it does not
/// describe.
pub proof fn lemma_tools_advertise_arguments()
    ensures
        listed_tools().len() == 4,
        listed_tools()[0].name == "register_agent"@,
        listed_tools()[0].required.len() == 0,
        listed_tools()[1].name == "spawn"@,
        takes_text(listed_tools()[1], "agent_id"@),
        takes_text(listed_tools()[1], "session_id"@),
        takes_text(listed_tools()[1], "command"@),
        listed_tools()[1].required.contains("agent_id"@),
        listed_tools()[1].required.contains("session_id"@),
        listed_tools()[1].required.contains("command"@),
        listed_tools()[2].name == "read_history"@,
        takes_text(listed_tools()[2], "agent_id"@),
        takes_text(listed_tools()[2], "session_id"@),
        listed_tools()[2].required.contains("agent_id"@),
        listed_tools()[2].required.contains("session_id"@),
        exists|i: int| 0 <= i < listed_tools()[2].params.len() && #[trigger] listed_tools()[2].params[i].name
            == "start_line"@ && listed_tools()[2].params[i].kind == "integer"@,
        exists|i: int| 0 <= i < listed_tools()[2].params.len() && #[trigger] listed_tools()[2].params[i].name
            == "max_lines"@ && listed_tools()[2].params[i].kind == "integer"@,
        !listed_tools()[2].required.contains("start_line"@),
        !listed_tools()[2].required.contains("max_lines"@),
        listed_tools()[3].name == "write_stdin"@,
        takes_text(listed_tools()[3], "agent_id"@),
        takes_text(listed_tools()[3], "session_id"@),
        takes_text(listed_tools()[3], "input"@),
        listed_tools()[3].required.contains("agent_id"@),
        listed_tools()[3].required.contains("session_id"@),
        listed_tools()[3].required.contains("input"@),
        forall|t: int, r: int|
            0 <= t < 4 && 0 <= r < listed_tools()[t].required.len() ==> exists|i: int|
                0 <= i < listed_tools()[t].params.len() && #[trigger] listed_tools()[t].params[i].name
                    == #[trigger] listed_tools()[t].required[r],
{
    let v = listed_tools();
    assert(v[1].params[0].name == "agent_id"@);
    assert(v[1].params[1].name == "session_id"@);
    assert(v[1].params[2].name == "command"@);
    assert(v[1].required[0] == "agent_id"@);
    assert(v[1].required[1] == "session_id"@);
    assert(v[1].required[2] == "command"@);
    assert(v[2].params[0].name == "agent_id"@);
    assert(v[2].params[1].name == "session_id"@);
    assert(v[2].params[2].name == "start_line"@);
    assert(v[2].params[3].name == "max_lines"@);
    assert(v[2].required[0] == "agent_id"@);
    assert(v[2].required[1] == "session_id"@);
    assert(v[3].params[0].name == "agent_id"@);
    assert(v[3].params[1].name == "session_id"@);
    assert(v[3].params[2].name == "input"@);
    assert(v[3].required[0] == "agent_id"@);
    assert(v[3].required[1] == "session_id"@);
    assert(v[3].required[2] == "input"@);
    reveal_strlit("agent_id");
    reveal_strlit("session_id");
    reveal_strlit("start_line");
    reveal_strlit("max_lines");
    assert("agent_id"@.len() != "start_line"@.len());
    assert("session_id"@[1] != "start_line"@[1]);
    assert("agent_id"@.len() != "max_lines"@.len());
    assert("session_id"@.len() != "max_lines"@.len());
    assert("agent_id"@ != "start_line"@ && "session_id"@ != "start_line"@);
    assert("agent_id"@ != "max_lines"@ && "session_id"@ != "max_lines"@);
    assert(!v[2].required.contains("start_line"@));
    assert(!v[2].required.contains("max_lines"@));
}

} // verus!
