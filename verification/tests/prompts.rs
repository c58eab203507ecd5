use stream_observer::prompt::{
    interject_ask_context, interject_prompt_snippet, rag_prompt, rag_tool_response, system_preamble,
};

#[test]
fn framed_preamble_uses_the_system_role_and_opens_the_model_turn() {
    let p = system_preamble("PERSONA", true);
    assert_eq!(p, "<|turn>system\nPERSONA<turn|>\n<|turn>model\n");
    assert!(!p.contains("<start_of_turn>"));
    assert!(!p.contains("<|turn>user"));
}

#[test]
fn unframed_preamble_is_plain_text() {
    assert_eq!(system_preamble("PERSONA", false), "PERSONA");
}

#[test]
fn context_ask_closes_then_opens_user_and_model_turns() {
    let a = interject_ask_context("SPAN", "", "", false);
    assert!(a.starts_with("<turn|>\n<|turn>user\n"));
    assert!(a.ends_with("<|turn>model\n"));
    assert!(a.contains("\u{201c}SPAN\u{201d}"));
    assert!(a.contains("comment on (not continue)"));
    assert!(interject_ask_context("S", "", "", true).contains("pick up your running commentary"));
}

#[test]
fn context_ask_injects_novelty_block_and_clause() {
    let a = interject_ask_context("S", "\n\nYou recently said:\n- foo", " — fresh angle", false);
    assert!(a.contains("You recently said:\n- foo"));
    assert!(a.contains(" — fresh angle"));
}

#[test]
fn snippet_prompt_puts_recent_first_then_instruction() {
    let p = interject_prompt_snippet("RECENT");
    let recent_at = p.find("RECENT").unwrap();
    let ask_at = p.find("Give your").unwrap();
    assert!(recent_at < ask_at, "recent text must precede the instruction");
    assert!(p.ends_with("<|turn>model\n"));
}

#[test]
fn rag_prompt_declares_the_tool_in_a_system_turn() {
    let p = rag_prompt("RECENT", "tok");
    assert!(p.starts_with("<|turn>system\n<|tool>declaration:search"));
    assert!(p.contains("<|turn>user\n"));
    assert!(p.ends_with("<|turn>model\n"));
}

#[test]
fn tool_response_uses_gemma_native_inline_format() {
    let r = rag_tool_response("the Pequod set sail");
    assert_eq!(
        r,
        "<|tool_response>response:search{value:<|\"|>the Pequod set sail<|\"|>}<tool_response|>"
    );
    assert!(!r.contains("<|turn>"));
}

/// The whole text of each ask, once.
#[test]
fn asks_read_as_written() {
    assert_eq!(
        interject_prompt_snippet("R"),
        "<|turn>user\nHere is the passage the text has just reached:\n\nR\n\nGive your brief aside on \
         it — what's happening, what it's doing, what it means.<turn|>\n<|turn>model\n"
    );
    assert_eq!(
        interject_ask_context("S", "B", "C", true),
        "<turn|>\n<|turn>user\nYou've been musing as you read, and the text has moved on \
         to:\n\n\u{201c}S\u{201d}B\n\nGo on — pick up your running commentary in \
         your own voiceC.<turn|>\n<|turn>model\n"
    );
    assert_eq!(
        interject_ask_context("S", "B", "C", false),
        "<turn|>\n<|turn>user\nHere is the passage the text has just reached, quoted for you \
         to comment on (not continue):\n\n\u{201c}S\u{201d}B\n\nGive your aside \
         on it — what's happening here, what it's doing, what it means, and how it connects \
         to what came beforeC.<turn|>\n<|turn>model\n"
    );
    assert!(rag_prompt("R", "tok").contains(
        "<turn|>\n<|turn>user\nHere is the train of thought you've been following:\n\nR\n\nThe token \
         \"tok\" stood out. If it is an unfamiliar term, name, place, or reference worth looking up, \
         call the search tool. Otherwise just say in a sentence what you noticed.<turn|>\n"
    ));
}
