//! The JSON-RPC side of a tool server: error values and the choice of what
//! a request asks for. Reading and writing the JSON itself is left to the
//! caller.
use crate::text::{same_text, str_views};
use vstd::prelude::*;

verus! {

/// The JSON-RPC code for an unknown method or tool.
pub const METHOD_NOT_FOUND: i32 = -32601;

/// The JSON-RPC code for arguments that do not fit the tool.
pub const INVALID_PARAMS: i32 = -32602;

/// The JSON-RPC code for a request that is not valid JSON.
pub const PARSE_ERROR: i32 = -32700;

/// The error member of a JSON-RPC response.
#[derive(Debug)]
pub struct JsonRpcError {
    pub code: i32,
    pub message: String,
}

impl JsonRpcError {
    /// The named tool is not one that the server offers.
    pub fn tool_not_found() -> (r: Self)
        ensures
            r.code == METHOD_NOT_FOUND,
            r.message@ == "Tool not found"@,
    {
        JsonRpcError { code: METHOD_NOT_FOUND, message: String::from_str("Tool not found") }
    }

    /// The method is not one that the server handles.
    pub fn method_not_found() -> (r: Self)
        ensures
            r.code == METHOD_NOT_FOUND,
            r.message@ == "Method not found"@,
    {
        JsonRpcError { code: METHOD_NOT_FOUND, message: String::from_str("Method not found") }
    }

    /// The tool's arguments could not be read; `detail` says why.
    pub fn invalid_params(detail: &str) -> (r: Self)
        ensures
            r.code == INVALID_PARAMS,
            r.message@ == "Invalid parameters: "@ + detail@,
    {
        let mut message = String::from_str("Invalid parameters: ");
        message.append(detail);
        JsonRpcError { code: INVALID_PARAMS, message }
    }

    /// The request line is not a JSON-RPC request; `detail` says why.
    pub fn parse_error(detail: &str) -> (r: Self)
        ensures
            r.code == PARSE_ERROR,
            r.message@ == "Parse error: "@ + detail@,
    {
        let mut message = String::from_str("Parse error: ");
        message.append(detail);
        JsonRpcError { code: PARSE_ERROR, message }
    }
}

/// What a request asks the server for.
#[derive(Debug, Clone, Copy, PartialEq, Eq)]
pub enum Dispatch {
    /// The handshake.
    Initialize,
    /// The description of the tools.
    ListTools,
    /// A call of the tool at this index of the server's tool list.
    CallTool(usize),
}

/// `i` is the first index of `name` in `tools`.
pub open spec fn first_index(tools: Seq<Seq<char>>, name: Seq<char>, i: int) -> bool {
    0 <= i < tools.len() && tools[i] == name && forall|k: int| 0 <= k < i ==> tools[k] != name
}

/// What the request with `method` asks for, given whether it has parameters
/// and the tool name they hold, on a server that offers `tools`.
pub fn dispatch(method: &str, has_params: bool, tool_name: Option<&str>, tools: &[&str]) -> (r: Result<
    Dispatch,
    JsonRpcError,
>)
    ensures
        method@ == "initialize"@ ==> r == Ok::<Dispatch, JsonRpcError>(Dispatch::Initialize),
        method@ == "tools/list"@ ==> r == Ok::<Dispatch, JsonRpcError>(Dispatch::ListTools),
        method@ == "tools/call"@ && !has_params ==> (r matches Err(e) && e.code == METHOD_NOT_FOUND
            && e.message@ == "Tool not found"@),
        method@ == "tools/call"@ && has_params ==> match r {
            Ok(Dispatch::CallTool(i)) => tool_name matches Some(t) && first_index(
                str_views(tools@),
                t@,
                i as int,
            ),
            Ok(_) => false,
            Err(e) => e.code == METHOD_NOT_FOUND && e.message@ == "Tool not found"@ && (
            tool_name matches Some(t) ==> !str_views(tools@).contains(t@)),
        },
        method@ != "initialize"@ && method@ != "tools/list"@ && method@ != "tools/call"@ ==> (r matches Err(
            e,
        ) && e.code == METHOD_NOT_FOUND && e.message@ == "Method not found"@),
{
    proof {
        reveal_strlit("initialize");
        reveal_strlit("tools/list");
        reveal_strlit("tools/call");
        assert("initialize"@[0] != "tools/list"@[0]);
        assert("initialize"@[0] != "tools/call"@[0]);
        assert("tools/list"@[6] != "tools/call"@[6]);
    }
    if same_text(method, "initialize") {
        return Ok(Dispatch::Initialize);
    }
    if same_text(method, "tools/list") {
        return Ok(Dispatch::ListTools);
    }
    if !same_text(method, "tools/call") {
        return Err(JsonRpcError::method_not_found());
    }
    if !has_params {
        return Err(JsonRpcError::tool_not_found());
    }
    match tool_name {
        None => Err(JsonRpcError::tool_not_found()),
        Some(t) => {
            let mut i: usize = 0;
            while i < tools.len()
                invariant
                    method@ != "initialize"@,
                    method@ != "tools/list"@,
                    method@ == "tools/call"@,
                    has_params,
                    tool_name == Some(t),
                    i <= tools@.len(),
                    forall|k: int| 0 <= k < i ==> str_views(tools@)[k] != t@,
                decreases tools@.len() - i,
            {
                assert(str_views(tools@)[i as int] == tools@[i as int]@);
                if same_text(tools[i], t) {
                    return Ok(Dispatch::CallTool(i));
                }
                i = i + 1;
            }
            Err(JsonRpcError::tool_not_found())
        },
    }
}

} // verus!
