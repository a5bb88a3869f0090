use ragkit::rpc::{dispatch, Dispatch, JsonRpcError, INVALID_PARAMS, METHOD_NOT_FOUND, PARSE_ERROR};
use ragkit::text::{same_text, split_on, trim};
use ragkit::tools::{add_ten, add_ten_reply, decimal_string, get_ext_items, markdown_target, purchase};

#[test]
fn purchase_confirmation() {
    assert_eq!(purchase("りんご".to_string(), 120), "「りんご」を120円で購入しました。");
    assert_eq!(purchase("".to_string(), 0), "「」を0円で購入しました。");
    assert_eq!(purchase("x".to_string(), -5), "「x」を-5円で購入しました。");
}

#[test]
fn decimal_of_extremes() {
    assert_eq!(decimal_string(i32::MIN), "-2147483648");
    assert_eq!(decimal_string(i32::MAX), "2147483647");
    assert_eq!(decimal_string(10), "10");
    assert_eq!(decimal_string(-9), "-9");
}

#[test]
fn add_ten_adds_ten() {
    assert_eq!(add_ten(5), 15);
    assert_eq!(add_ten(-10), 0);
    assert_eq!(add_ten(i32::MAX - 10), i32::MAX);
}

#[test]
fn extension_list() {
    let items = get_ext_items();
    assert_eq!(items.len(), 14);
    assert_eq!(items[0], ".js");
    assert_eq!(items[9], ".svelte");
    assert_eq!(items[13], ".php");
}

#[test]
fn source_files_become_markdown() {
    assert_eq!(markdown_target("vault/app.rs", "rs"), Some("vault/app.rs.md".to_string()));
    assert_eq!(markdown_target("vault/page.html", "html"), Some("vault/page.html.md".to_string()));
    assert_eq!(markdown_target("vault/note.md", "md"), None);
    assert_eq!(markdown_target("vault/data.txt", "txt"), None);
    assert_eq!(markdown_target("vault/x.R", "R"), None);
}

#[test]
fn dispatch_known_methods() {
    let tools = ["purchase", "purchase_list"];
    assert_eq!(dispatch("initialize", false, None, &tools).unwrap(), Dispatch::Initialize);
    assert_eq!(dispatch("tools/list", true, None, &tools).unwrap(), Dispatch::ListTools);
    assert_eq!(dispatch("tools/call", true, Some("purchase_list"), &tools).unwrap(), Dispatch::CallTool(1));
    assert_eq!(dispatch("tools/call", true, Some("purchase"), &tools).unwrap(), Dispatch::CallTool(0));
}

#[test]
fn dispatch_errors() {
    let tools = ["add_ten"];
    let e = dispatch("tools/call", true, Some("rag_search"), &tools).unwrap_err();
    assert_eq!((e.code, e.message.as_str()), (METHOD_NOT_FOUND, "Tool not found"));
    let e = dispatch("tools/call", true, None, &tools).unwrap_err();
    assert_eq!((e.code, e.message.as_str()), (METHOD_NOT_FOUND, "Tool not found"));
    let e = dispatch("tools/call", false, None, &tools).unwrap_err();
    assert_eq!((e.code, e.message.as_str()), (METHOD_NOT_FOUND, "Tool not found"));
    let e = dispatch("shutdown", true, Some("add_ten"), &tools).unwrap_err();
    assert_eq!((e.code, e.message.as_str()), (METHOD_NOT_FOUND, "Method not found"));
}

#[test]
fn error_values() {
    let e = JsonRpcError::invalid_params("missing field `value`");
    assert_eq!((e.code, e.message.as_str()), (INVALID_PARAMS, "Invalid parameters: missing field `value`"));
    let e = JsonRpcError::parse_error("EOF");
    assert_eq!((e.code, e.message.as_str()), (PARSE_ERROR, "Parse error: EOF"));
    assert_eq!(METHOD_NOT_FOUND, -32601);
    assert_eq!(INVALID_PARAMS, -32602);
    assert_eq!(PARSE_ERROR, -32700);
}

#[test]
fn split_on_separator_like_str_split() {
    for (s, sep) in [("a\n\nb\n\n\nc", "\n\n"), ("", "x"), ("xx", "x"), ("aaa", "aa"), ("a。b", "。")] {
        let ours: Vec<&str> = split_on(s, sep);
        let std_parts: Vec<&str> = s.split(sep).collect();
        assert_eq!(ours, std_parts);
    }
}

#[test]
fn trim_like_str_trim() {
    for s in ["  a b  ", "\u{3000}全角\u{3000}", "\t\n", "", "x", "\u{85}y\u{a0}"] {
        assert_eq!(trim(s), s.trim());
    }
}

#[test]
fn same_text_compares_characters() {
    assert!(same_text("md", "md"));
    assert!(!same_text("md", "mdx"));
    assert!(!same_text("", "a"));
}

#[test]
fn add_ten_reply_text() {
    assert_eq!(add_ten_reply(5), "入力値: 5, 結果: 15");
    assert_eq!(add_ten_reply(-20), "入力値: -20, 結果: -10");
}
