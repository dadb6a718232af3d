use async_shell::mcp::{
    outcome_text, respond, CallParams, McpServer, Reply, RequestError, Response, RpcError, RpcRequest,
    Step, ToolArguments, INTERNAL_ERROR,
};
use async_shell::session::SessionError;

fn no_args() -> ToolArguments {
    ToolArguments {
        agent_id: None,
        session_id: None,
        command: None,
        input: None,
        start_line: None,
        max_lines: None,
    }
}

fn call(name: &str, args: ToolArguments) -> RpcRequest {
    RpcRequest {
        method: "tools/call".to_string(),
        params: Some(CallParams { name: Some(name.to_string()), arguments: Some(args) }),
    }
}

fn method(m: &str) -> RpcRequest {
    RpcRequest { method: m.to_string(), params: None }
}

fn done(step: Step) -> Result<Reply, RequestError> {
    match step {
        Step::Done(r) => r,
        _ => panic!("expected a final answer"),
    }
}

fn register(server: &mut McpServer) -> String {
    match done(server.handle_request(&call("register_agent", no_args()))) {
        Ok(Reply::Text(id)) => id,
        _ => panic!("registration failed"),
    }
}

#[test]
fn protocol_methods() {
    let mut s = McpServer::new();
    assert_eq!(done(s.handle_request(&method("initialize"))), Ok(Reply::Initialize));
    assert_eq!(done(s.handle_request(&method("notifications/initialized"))), Ok(Reply::NoResponse));
    assert_eq!(done(s.handle_request(&method("tools/list"))), Ok(Reply::ToolList));
    assert_eq!(done(s.handle_request(&method("shutdown"))), Err(RequestError::MethodNotSupported));
    assert_eq!(done(s.handle_request(&method("tools/call"))), Err(RequestError::MissingParams));
    let no_arguments = RpcRequest {
        method: "tools/call".to_string(),
        params: Some(CallParams { name: Some("spawn".to_string()), arguments: None }),
    };
    assert_eq!(done(s.handle_request(&no_arguments)), Err(RequestError::MissingArguments));
    assert_eq!(
        done(s.handle_request(&call("dance", no_args()))),
        Err(RequestError::UnknownTool("dance".to_string()))
    );
}

#[test]
fn full_agent_flow() {
    let mut s = McpServer::new();
    let agent = register(&mut s);
    assert_eq!(agent.len(), 64);

    let mut args = no_args();
    args.agent_id = Some(agent.clone());
    args.session_id = Some("dev".to_string());
    args.command = Some("echo hi".to_string());
    match s.handle_request(&call("spawn", args)) {
        Step::Launch { session_id, agent_id, command } => {
            assert_eq!(session_id, "dev");
            assert_eq!(agent_id, agent);
            assert_eq!(command, "echo hi");
        }
        _ => panic!("expected a launch"),
    }
    assert_eq!(s.finish_spawn("dev", &agent, 1), Ok(Reply::Text("Spawned session 'dev'".to_string())));
    assert!(s.manager.ingest("dev", 1, b"hi\r\n"));

    let mut read = no_args();
    read.agent_id = Some(agent.clone());
    read.session_id = Some("dev".to_string());
    assert_eq!(
        done(s.handle_request(&call("read_history", read))),
        Ok(Reply::Text(format!("Showing lines 0-2 of 2 (Agent: {})\n---\nhi\n", agent)))
    );

    let mut write = no_args();
    write.agent_id = Some(agent.clone());
    write.session_id = Some("dev".to_string());
    write.input = Some("yes\n".to_string());
    match s.handle_request(&call("write_stdin", write)) {
        Step::Write { session_id, input, reply } => {
            assert_eq!(session_id, "dev");
            assert_eq!(input, "yes\n");
            assert_eq!(reply, Reply::Text("Wrote to session 'dev'".to_string()));
        }
        _ => panic!("expected a write"),
    }
}

#[test]
fn tools_refuse_unknown_agents() {
    let mut s = McpServer::new();
    let mut args = no_args();
    args.session_id = Some("dev".to_string());
    assert_eq!(
        done(s.handle_request(&call("spawn", args))),
        Err(RequestError::Session(SessionError::Unauthenticated))
    );
    assert_eq!(
        s.finish_spawn("dev", "ghost", 1),
        Err(RequestError::Session(SessionError::Unauthenticated))
    );
    assert_eq!(
        done(s.handle_request(&call("read_history", no_args()))),
        Err(RequestError::Session(SessionError::Unauthenticated))
    );
    assert_eq!(
        done(s.handle_request(&call("write_stdin", no_args()))),
        Err(RequestError::Session(SessionError::Unauthenticated))
    );
}

#[test]
fn read_history_defaults_to_default_agent() {
    let mut s = McpServer::new();
    let agent = register(&mut s);
    s.finish_spawn("", &agent, 1).unwrap();
    // the read names no agent: it reads as "default_agent", which is not registered
    assert_eq!(
        done(s.handle_request(&call("read_history", no_args()))),
        Err(RequestError::Session(SessionError::Unauthenticated))
    );
    let mut missing = no_args();
    missing.agent_id = Some(agent.clone());
    missing.session_id = Some("nope".to_string());
    assert_eq!(
        done(s.handle_request(&call("read_history", missing))),
        Err(RequestError::Session(SessionError::SessionNotFound("nope".to_string())))
    );
    let mut unnamed = no_args();
    unnamed.agent_id = Some(agent.clone());
    assert_eq!(
        done(s.handle_request(&call("read_history", unnamed))),
        Ok(Reply::Text("Session is empty.".to_string()))
    );
}

#[test]
fn read_with_huge_limit() {
    let mut s = McpServer::new();
    let agent = register(&mut s);
    s.finish_spawn("dev", &agent, 1).unwrap();
    s.manager.ingest("dev", 1, b"a\nb");
    let mut read = no_args();
    read.agent_id = Some(agent.clone());
    read.session_id = Some("dev".to_string());
    read.start_line = Some(1);
    read.max_lines = Some(usize::MAX);
    assert_eq!(
        done(s.handle_request(&call("read_history", read))),
        Ok(Reply::Text(format!("Showing lines 1-2 of 2 (Agent: {})\n---\nb", agent)))
    );
}

#[test]
fn error_messages() {
    assert_eq!(RequestError::MissingParams.message(), "Missing params");
    assert_eq!(RequestError::MissingArguments.message(), "Missing arguments");
    assert_eq!(RequestError::UnknownTool("x".to_string()).message(), "Unknown tool x");
    assert_eq!(RequestError::MethodNotSupported.message(), "Method not supported");
    assert_eq!(
        RequestError::Session(SessionError::SessionNotFound("s".to_string())).message(),
        "Session s not found"
    );
}

#[test]
fn responses() {
    assert_eq!(respond(Ok(Reply::NoResponse)), None);
    assert_eq!(
        respond(Ok(Reply::ToolList)),
        Some(Response { result: Some(Reply::ToolList), error: None })
    );
    assert_eq!(
        respond(Err("boom".to_string())),
        Some(Response {
            result: None,
            error: Some(RpcError { code: INTERNAL_ERROR, message: "boom".to_string() })
        })
    );
    assert_eq!(INTERNAL_ERROR, -32603);
    assert_eq!(
        outcome_text(Err(RequestError::MissingParams)),
        Err("Missing params".to_string())
    );
    assert_eq!(outcome_text(Ok(Reply::Initialize)), Ok(Reply::Initialize));
}

#[test]
fn listed_tools_and_server_info() {
    let tools = async_shell::mcp::tool_list();
    let names: Vec<&str> = tools.iter().map(|t| t.name.as_str()).collect();
    assert_eq!(names, vec!["register_agent", "spawn", "read_history", "write_stdin"]);
    assert_eq!(tools[2].required, vec!["agent_id".to_string(), "session_id".to_string()]);
    assert_eq!(tools[2].params[3].name, "max_lines");
    assert_eq!(tools[2].params[3].kind, "integer");
    assert_eq!(
        tools[2].params[3].description.as_deref(),
        Some("Maximum number of lines to return. Defaults to 100.")
    );
    assert!(tools[0].params.is_empty());
    let info = async_shell::mcp::server_info();
    assert_eq!(info.name, "async-shell");
    assert_eq!(info.version, "0.1.0");
    assert_eq!(info.protocol_version, "2024-11-05");
}
