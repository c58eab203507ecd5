//! The one owner of the chat format: everything that writes turn markers stands here.
//!
//! `<|turn>` opens a turn and `<turn|>` closes it; the role follows the opening marker. A tool is
//! declared between `<|tool>` and `<tool|>`, and `<|"|>` delimits strings in tool data. A prompt for
//! the model ends in an open model turn.

use vstd::prelude::*;

verus! {

/// Closes a turn.
pub const CLOSE: &'static str = "<turn|>\n";

/// Opens a system turn.
pub const OPEN_SYSTEM: &'static str = "<|turn>system\n";

/// Opens a user turn.
pub const OPEN_USER: &'static str = "<|turn>user\n";

/// Opens the model's turn, for it to write.
pub const OPEN_MODEL: &'static str = "<|turn>model\n";

/// The declaration of the search tool.
pub const SEARCH_TOOL: &'static str =
    r#"<|tool>declaration:search{description:<|"|>Look up an unfamiliar term, name, place, or reference.<|"|>,parameters:{properties:{query:{description:<|"|>what to look up<|"|>,type:<|"|>STRING<|"|>},source:{description:<|"|>mem for this session's earlier context, rag for the external knowledge base<|"|>,type:<|"|>STRING<|"|>}},required:[<|"|>query<|"|>,<|"|>source<|"|>],type:<|"|>OBJECT<|"|>}}<tool|>"#;

/// The pinned preamble: the persona in a system turn followed by an open model turn, or the persona
/// alone.
pub open spec fn preamble_of(persona: Seq<char>, frame: bool) -> Seq<char> {
    if frame {
        OPEN_SYSTEM@ + persona + CLOSE@ + OPEN_MODEL@
    } else {
        persona
    }
}

/// The system preamble. With `frame` the persona stands in the system turn and the model turn is
/// opened, so that the stream is scored as the model's own reasoning; without it the persona is plain
/// text.
pub fn system_preamble(system_prompt: &str, frame: bool) -> (r: String)
    ensures
        r@ == preamble_of(system_prompt@, frame),
{
    if frame {
        let mut s = OPEN_SYSTEM.to_owned();
        s.append(system_prompt);
        s.append(CLOSE);
        s.append(OPEN_MODEL);
        s
    } else {
        system_prompt.to_owned()
    }
}

/// The standalone ask: the recent text first, then the instruction, then an open model turn.
pub open spec fn snippet_ask(recent: Seq<char>) -> Seq<char> {
    OPEN_USER@ + "Here is the passage the text has just reached:\n\n"@ + recent
        + "\n\nGive your brief aside on it — what's happening, what it's doing, what it means."@ + CLOSE@
        + OPEN_MODEL@
}

/// The ask that carries the recent text itself. The instruction comes after the text: the other way
/// round a small model continues the text instead of reacting to it.
pub fn interject_prompt_snippet(recent: &str) -> (r: String)
    ensures
        r@ == snippet_ask(recent@),
{
    let mut s = OPEN_USER.to_owned();
    s.append("Here is the passage the text has just reached:\n\n");
    s.append(recent);
    s.append("\n\nGive your brief aside on it — what's happening, what it's doing, what it means.");
    s.append(CLOSE);
    s.append(OPEN_MODEL);
    s
}

/// What the user turn of the context ask says before the quoted span.
pub open spec fn context_lead(continuous: bool) -> Seq<char> {
    if continuous {
        "You've been musing as you read, and the text has moved on to:\n\n"@
    } else {
        "Here is the passage the text has just reached, quoted for you to comment on (not continue):\n\n"@
    }
}

/// What the user turn of the context ask says after the quoted span and the recent asides.
pub open spec fn context_request(continuous: bool) -> Seq<char> {
    if continuous {
        "\n\nGo on — pick up your running commentary in your own voice"@
    } else {
        "\n\nGive your aside on it — what's happening here, what it's doing, what it means, and how it connects to what came before"@
    }
}

/// The ask that continues the live context: it closes the open turn, quotes the span in a user turn
/// together with what is to be shown beside it, asks, and opens the model turn.
pub open spec fn context_ask(
    span: Seq<char>,
    novelty_block: Seq<char>,
    novelty_clause: Seq<char>,
    continuous: bool,
) -> Seq<char> {
    CLOSE@ + OPEN_USER@ + context_lead(continuous) + "\u{201c}"@ + span + "\u{201d}"@ + novelty_block
        + context_request(continuous) + novelty_clause + "."@ + CLOSE@ + OPEN_MODEL@
}

/// The ask that is appended to the forked context. `continuous` asks to pick up a running commentary
/// instead of commenting on a quoted passage.
pub fn interject_ask_context(
    span: &str,
    novelty_block: &str,
    novelty_clause: &str,
    continuous: bool,
) -> (r: String)
    ensures
        r@ == context_ask(span@, novelty_block@, novelty_clause@, continuous),
{
    let mut s = CLOSE.to_owned();
    s.append(OPEN_USER);
    if continuous {
        s.append("You've been musing as you read, and the text has moved on to:\n\n");
    } else {
        s.append(
            "Here is the passage the text has just reached, quoted for you to comment on (not continue):\n\n",
        );
    }
    s.append("\u{201c}");
    s.append(span);
    s.append("\u{201d}");
    s.append(novelty_block);
    if continuous {
        s.append("\n\nGo on — pick up your running commentary in your own voice");
    } else {
        s.append(
            "\n\nGive your aside on it — what's happening here, what it's doing, what it means, and how it connects to what came before",
        );
    }
    s.append(novelty_clause);
    s.append(".");
    s.append(CLOSE);
    s.append(OPEN_MODEL);
    s
}

/// The search prompt: the tool in a system turn, the train of thought in a user turn, then an open
/// model turn.
pub open spec fn search_ask(recent: Seq<char>, surprising: Seq<char>) -> Seq<char> {
    OPEN_SYSTEM@ + SEARCH_TOOL@ + "\n"@ + CLOSE@ + OPEN_USER@
        + "Here is the train of thought you've been following:\n\n"@ + recent + "\n\nThe token \""@
        + surprising
        + "\" stood out. If it is an unfamiliar term, name, place, or reference worth looking up, call the search tool. Otherwise just say in a sentence what you noticed."@
        + CLOSE@ + OPEN_MODEL@
}

/// The prompt that lets the model look something up.
pub fn rag_prompt(recent: &str, surprising: &str) -> (r: String)
    ensures
        r@ == search_ask(recent@, surprising@),
{
    let mut s = OPEN_SYSTEM.to_owned();
    s.append(SEARCH_TOOL);
    s.append("\n");
    s.append(CLOSE);
    s.append(OPEN_USER);
    s.append("Here is the train of thought you've been following:\n\n");
    s.append(recent);
    s.append("\n\nThe token \"");
    s.append(surprising);
    s.append(
        "\" stood out. If it is an unfamiliar term, name, place, or reference worth looking up, call the search tool. Otherwise just say in a sentence what you noticed.",
    );
    s.append(CLOSE);
    s.append(OPEN_MODEL);
    s
}

/// The answer to a search call, inline in the model's own turn.
pub open spec fn search_answer(snippet: Seq<char>) -> Seq<char> {
    "<|tool_response>response:search{value:<|\"|>"@ + snippet + "<|\"|>}<tool_response|>"@
}

/// The block that feeds a search result back. It opens no turn: the model's turn goes on after it.
pub fn rag_tool_response(snippet: &str) -> (r: String)
    ensures
        r@ == search_answer(snippet@),
{
    let mut s = "<|tool_response>response:search{value:<|\"|>".to_owned();
    s.append(snippet);
    s.append("<|\"|>}<tool_response|>");
    s
}

/// `s` ends in `tail`.
pub open spec fn ends_in(s: Seq<char>, tail: Seq<char>) -> bool {
    tail.len() <= s.len() && s.skip(s.len() - tail.len()) == tail
}

/// Every prompt for the model ends in an open model turn, whatever it is made of.
pub proof fn lemma_prompts_open_the_model_turn(
    persona: Seq<char>,
    recent: Seq<char>,
    surprising: Seq<char>,
    span: Seq<char>,
    block: Seq<char>,
    clause: Seq<char>,
    continuous: bool,
)
    ensures
        ends_in(preamble_of(persona, true), OPEN_MODEL@),
        ends_in(snippet_ask(recent), OPEN_MODEL@),
        ends_in(context_ask(span, block, clause, continuous), OPEN_MODEL@),
        ends_in(search_ask(recent, surprising), OPEN_MODEL@),
{
    lemma_tail(OPEN_SYSTEM@ + persona + CLOSE@, OPEN_MODEL@);
    lemma_tail(
        OPEN_USER@ + "Here is the passage the text has just reached:\n\n"@ + recent
            + "\n\nGive your brief aside on it — what's happening, what it's doing, what it means."@
            + CLOSE@,
        OPEN_MODEL@,
    );
    lemma_tail(
        CLOSE@ + OPEN_USER@ + context_lead(continuous) + "\u{201c}"@ + span + "\u{201d}"@ + block
            + context_request(continuous) + clause + "."@ + CLOSE@,
        OPEN_MODEL@,
    );
    lemma_tail(
        OPEN_SYSTEM@ + SEARCH_TOOL@ + "\n"@ + CLOSE@ + OPEN_USER@
            + "Here is the train of thought you've been following:\n\n"@ + recent
            + "\n\nThe token \""@ + surprising
            + "\" stood out. If it is an unfamiliar term, name, place, or reference worth looking up, call the search tool. Otherwise just say in a sentence what you noticed."@
            + CLOSE@,
        OPEN_MODEL@,
    );
}

proof fn lemma_tail(head: Seq<char>, tail: Seq<char>)
    ensures
        ends_in(head + tail, tail),
{
    assert((head + tail).skip(head.len() as int) =~= tail);
}

/// The context ask closes the turn that the live context left open before it opens its own, and
/// carries the span in curly quotes: the text before and after the quotes does not depend on it.
pub proof fn lemma_context_ask_closes_first(
    span: Seq<char>,
    block: Seq<char>,
    clause: Seq<char>,
    continuous: bool,
)
    ensures
        ({
            let ask = context_ask(span, block, clause, continuous);
            let head = CLOSE@ + OPEN_USER@;
            &&& head.len() <= ask.len()
            &&& ask.take(head.len() as int) == head
            &&& exists|at: int|
                0 <= at && at + span.len() + 2 <= ask.len() && #[trigger] ask.subrange(
                    at,
                    at + span.len() + 2,
                ) == "\u{201c}"@ + span + "\u{201d}"@
        }),
{
    reveal_strlit("\u{201c}");
    reveal_strlit("\u{201d}");
    let ask = context_ask(span, block, clause, continuous);
    let head = CLOSE@ + OPEN_USER@;
    assert(ask.take(head.len() as int) =~= head);
    let at = (head + context_lead(continuous)).len() as int;
    assert(ask.subrange(at, at + span.len() + 2) =~= "\u{201c}"@ + span + "\u{201d}"@);
}

/// Different personas make different preambles.
pub proof fn lemma_preamble_keeps_the_persona(a: Seq<char>, b: Seq<char>, frame: bool)
    requires
        preamble_of(a, frame) == preamble_of(b, frame),
    ensures
        a == b,
{
    if frame {
        let pa = preamble_of(a, true);
        let pb = preamble_of(b, true);
        assert(pa.len() == pb.len());
        let n = OPEN_SYSTEM@.len() as int;
        assert(pa.subrange(n, n + a.len()) =~= a);
        assert(pb.subrange(n, n + b.len()) =~= b);
    }
}

/// The turns of each prompt, spelled out. The preamble has the persona in a system turn and opens the
/// model turn, or is the persona alone. A search prompt declares the tool in a system turn, carries the
/// recent text and the token in a user turn, and opens the model turn. An answer of the tool opens none.
pub proof fn lemma_the_turns_of_the_prompts(
    persona: &str,
    framed: String,
    plain: String,
    recent: &str,
    surprising: &str,
    ask: String,
    snippet: &str,
    answer: String,
)
    requires
        call_ensures(system_preamble, (persona, true), framed),
        call_ensures(system_preamble, (persona, false), plain),
        call_ensures(rag_prompt, (recent, surprising), ask),
        call_ensures(rag_tool_response, (snippet,), answer),
    ensures
        plain@ == persona@,
        framed@ == "<|turn>system\n"@ + persona@ + "<turn|>\n"@ + "<|turn>model\n"@,
        ask@ == "<|turn>system\n"@
            + r#"<|tool>declaration:search{description:<|"|>Look up an unfamiliar term, name, place, or reference.<|"|>,parameters:{properties:{query:{description:<|"|>what to look up<|"|>,type:<|"|>STRING<|"|>},source:{description:<|"|>mem for this session's earlier context, rag for the external knowledge base<|"|>,type:<|"|>STRING<|"|>}},required:[<|"|>query<|"|>,<|"|>source<|"|>],type:<|"|>OBJECT<|"|>}}<tool|>"#@
            + "\n"@ + "<turn|>\n"@ + "<|turn>user\n"@
            + "Here is the train of thought you've been following:\n\n"@ + recent@
            + "\n\nThe token \""@ + surprising@
            + "\" stood out. If it is an unfamiliar term, name, place, or reference worth looking up, call the search tool. Otherwise just say in a sentence what you noticed."@
            + "<turn|>\n"@ + "<|turn>model\n"@,
        answer@ == "<|tool_response>response:search{value:<|\"|>"@ + snippet@
            + "<|\"|>}<tool_response|>"@,
{
}

/// The two asks for an aside, spelled out. The one that continues the live context closes the open turn,
/// quotes the span that it is given, and nothing else of the stream, in a user turn, and opens the model
/// turn; the standalone one carries the text that it is given before the instruction.
pub proof fn lemma_the_turns_of_the_asks(
    span: &str,
    block: &str,
    clause: &str,
    passage: String,
    running: String,
    recent: &str,
    alone: String,
)
    requires
        call_ensures(interject_ask_context, (span, block, clause, false), passage),
        call_ensures(interject_ask_context, (span, block, clause, true), running),
        call_ensures(interject_prompt_snippet, (recent,), alone),
    ensures
        passage@ == "<turn|>\n"@ + "<|turn>user\n"@
            + "Here is the passage the text has just reached, quoted for you to comment on (not continue):\n\n"@
            + "\u{201c}"@ + span@ + "\u{201d}"@ + block@
            + "\n\nGive your aside on it — what's happening here, what it's doing, what it means, and how it connects to what came before"@
            + clause@ + "."@ + "<turn|>\n"@ + "<|turn>model\n"@,
        running@ == "<turn|>\n"@ + "<|turn>user\n"@
            + "You've been musing as you read, and the text has moved on to:\n\n"@ + "\u{201c}"@ + span@
            + "\u{201d}"@ + block@
            + "\n\nGo on — pick up your running commentary in your own voice"@ + clause@ + "."@
            + "<turn|>\n"@ + "<|turn>model\n"@,
        alone@ == "<|turn>user\n"@ + "Here is the passage the text has just reached:\n\n"@ + recent@
            + "\n\nGive your brief aside on it — what's happening, what it's doing, what it means."@
            + "<turn|>\n"@ + "<|turn>model\n"@,
{
}

} // verus!
