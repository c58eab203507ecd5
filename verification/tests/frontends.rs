use stream_observer::feed::{line_chunks, skip_to, Granularity};
use stream_observer::lobe::types::{
    AskMode, EvictMode, InterjectMode, NoveltyMode, Signal,
};
use stream_observer::number::F32;
use stream_observer::options::{
    signal_name, Mode, Options, Retriever, DEFAULT_SYSTEM_PROMPT, FIRE_SOFTNESS_BITS,
};
use stream_observer::present::{
    draw_feed, musing_label, prose_scroll, standing, wrap_count, FeedStyle, Standing,
};
use stream_observer::present_scene::{draw_bubble, draw_stage, next_frame, BubbleState};
use stream_observer::present_worker::{
    Control, Display, UiEvent, LOWER_BITS, MAX_RECENT, PROSE_TAIL_CHARS, RAISE_BITS,
};
use stream_observer::sprite::Area;
use stream_observer::tui::{
    action_of, clean, control_of, shade_style, Action, Key, Panels, Shade, FOUR_BITS, ONE_BITS,
    THREE_BITS, TWO_BITS,
};

// ---------------------------------------------------------------------------------------------
// Wrapping and the feed
// ---------------------------------------------------------------------------------------------

#[test]
fn words_wrap_greedily() {
    assert_eq!(wrap_count("", 10), 1);
    assert_eq!(wrap_count("anything", 0), 1);
    assert_eq!(wrap_count("call me Ishmael", 15), 1);
    assert_eq!(wrap_count("call me Ishmael", 14), 2);
    assert_eq!(wrap_count("call me Ishmael", 7), 2);
    assert_eq!(wrap_count("call me Ishmael", 6), 4);
    assert_eq!(wrap_count("a\nb\n", 10), 3);
    // A word longer than the line spills over.
    assert_eq!(wrap_count("abcdefghij", 4), 3);
    // Characters count, not bytes.
    assert_eq!(wrap_count("ééééé", 5), 1);
}

#[test]
fn blanks_in_a_row_take_room() {
    assert_eq!(wrap_count("    ", 3), 2);
    assert_eq!(wrap_count(" a", 2), 1);
}

fn owned(v: &[&str]) -> Vec<String> {
    v.iter().map(|s| s.to_string()).collect()
}

#[test]
fn a_short_feed_sits_at_the_bottom() {
    let feed = draw_feed(&owned(&["One.", "Two."]), None, 20, 8);
    let lines: Vec<(&str, FeedStyle)> =
        feed.lines.iter().map(|l| (l.text.as_str(), l.style)).collect();
    assert_eq!(feed.scroll, 0);
    assert_eq!(lines.len(), 8);
    assert!(lines[..4].iter().all(|l| *l == ("", FeedStyle::Blank)));
    assert_eq!(
        lines[4..],
        [
            ("One.", FeedStyle::Settled),
            ("", FeedStyle::Blank),
            ("", FeedStyle::Blank),
            ("Two.", FeedStyle::Latest),
        ]
    );
}

#[test]
fn the_aside_in_flight_is_the_last_line() {
    let feed = draw_feed(&owned(&["One."]), Some("Tw"), 20, 2);
    let texts: Vec<&str> = feed.lines.iter().map(|l| l.text.as_str()).collect();
    assert_eq!(texts, ["One.", "", "", "Tw▍"]);
    assert_eq!(feed.lines[0].style, FeedStyle::Settled);
    assert_eq!(feed.lines[3].style, FeedStyle::Forming);
    // One, the gap, the aside, and one to spare: five lines over a pane of two.
    assert_eq!(feed.scroll, 3);
    let musing = draw_feed(&Vec::new(), Some(""), 20, 1);
    assert_eq!(musing.lines[0].text, "musing…");
    assert_eq!(musing.lines[0].style, FeedStyle::Musing);
}

#[test]
fn an_empty_feed_says_so() {
    let feed = draw_feed(&Vec::new(), None, 20, 1);
    assert_eq!(feed.lines.len(), 1);
    assert_eq!(feed.lines[0].text, "…");
    assert_eq!(feed.lines[0].style, FeedStyle::Waiting);
}

#[test]
fn the_prose_shows_its_end() {
    assert_eq!(prose_scroll("a\nb\nc", 10, 2), 1);
    assert_eq!(prose_scroll("a\nb\nc", 10, 9), 0);
}

#[test]
fn scrolling_stops_at_the_last_line_that_can_be_counted() {
    let max = u16::MAX as usize;
    // One line more than there are line breaks.
    assert_eq!(prose_scroll(&"\n".repeat(max), 10, 1), u16::MAX);
    assert_eq!(prose_scroll(&"\n".repeat(max + 5), 10, 1), u16::MAX);
    assert_eq!(prose_scroll(&"\n".repeat(max - 5), 10, 1), u16::MAX - 5);
    let long = vec!["\n".repeat(max + 5)];
    assert_eq!(draw_feed(&long, None, 10, 1).scroll, u16::MAX);
}

#[test]
fn being_over_goes_before_being_paused() {
    assert_eq!(standing(true, true), Standing::Finished);
    assert_eq!(standing(true, false).label(), "paused");
    assert_eq!(standing(false, false).label(), "reading");
    assert_eq!(standing(false, true).label(), "finished");
    assert_eq!(standing(false, true).banner(), "DONE");
    assert_eq!(standing(true, false).banner(), "PAUSED");
    assert_eq!(standing(false, false).banner(), "OBSERVING");
}

#[test]
fn musing_counts_its_dots() {
    assert_eq!(musing_label(0), "musing.");
    assert_eq!(musing_label(400), "musing..");
    assert_eq!(musing_label(1199), "musing...");
    assert_eq!(musing_label(1200), "musing.");
}

// ---------------------------------------------------------------------------------------------
// The scene
// ---------------------------------------------------------------------------------------------

#[test]
fn the_room_stands_at_the_bottom_of_the_stage() {
    let s = draw_stage(Area { x: 0, y: 10, width: 120, height: 40 }, (100, 24), (9, 6));
    assert_eq!(s.sprite, Area { x: 10, y: 26, width: 100, height: 24 });
    assert_eq!(s.flame, Area { x: 56, y: 38, width: 9, height: 6 });
    assert_eq!(s.band, Area { x: 0, y: 10, width: 120, height: 16 });
}

#[test]
fn a_stage_that_is_too_small_cuts_the_room() {
    let s = draw_stage(Area { x: 2, y: 3, width: 50, height: 10 }, (100, 24), (9, 6));
    assert_eq!(s.sprite, Area { x: 2, y: 3, width: 50, height: 10 });
    assert_eq!(s.band.height, 0);
}

#[test]
fn a_stage_may_reach_the_last_column_and_row() {
    let s = draw_stage(Area { x: 65_300, y: 65_400, width: 235, height: 135 }, (100, 24), (9, 6));
    assert_eq!(s.sprite, Area { x: 65_367, y: 65_511, width: 100, height: 24 });
    assert_eq!(s.flame, Area { x: 65_413, y: 65_523, width: 9, height: 6 });
    assert_eq!(s.band, Area { x: 65_300, y: 65_400, width: 235, height: 111 });
    let b = draw_bubble(s.band, s.sprite, Some("Settled."), None, 0).unwrap();
    assert_eq!(b.area, Area { x: 65_387, y: 65_498, width: 60, height: 12 });
    assert_eq!(b.tail[0].x, 65_431);
}

#[test]
fn the_bubble_points_at_the_head() {
    let s = draw_stage(Area { x: 0, y: 10, width: 120, height: 40 }, (100, 24), (9, 6));
    let b = draw_bubble(s.band, s.sprite, Some("Before."), Some("The wh"), 0).unwrap();
    assert_eq!(b.text, "The wh▍");
    assert_eq!(b.state, BubbleState::Forming);
    assert_eq!(b.area, Area { x: 30, y: 13, width: 60, height: 12 });
    let tail: Vec<(u16, u16, char)> = b.tail.iter().map(|c| (c.x, c.y, c.glyph)).collect();
    assert_eq!(tail, [(74, 25, '▾')]);
}

#[test]
fn a_tall_gap_gives_the_tail_a_shaft() {
    let band = Area { x: 0, y: 0, width: 40, height: 4 };
    let sprite = Area { x: 0, y: 6, width: 40, height: 10 };
    let b = draw_bubble(band, sprite, Some("Settled."), None, 0).unwrap();
    assert_eq!(b.state, BubbleState::Settled);
    let tail: Vec<(u16, u16, char)> = b.tail.iter().map(|c| (c.x, c.y, c.glyph)).collect();
    // The head lies beyond a room that is cut off, so the tail stays at its edge.
    assert_eq!(tail, [(39, 3, '│'), (39, 4, '│'), (39, 5, '▾')]);
}

#[test]
fn a_bubble_needs_something_to_say_and_room_to_say_it() {
    let band = Area { x: 0, y: 0, width: 40, height: 10 };
    let sprite = Area { x: 0, y: 10, width: 40, height: 10 };
    assert!(draw_bubble(band, sprite, None, None, 0).is_none());
    assert!(draw_bubble(band, sprite, Some(""), None, 0).is_none());
    let musing = draw_bubble(band, sprite, Some("Before."), Some(""), 400).unwrap();
    assert_eq!(musing.text, "musing..");
    assert_eq!(musing.state, BubbleState::Musing);
    let low = Area { height: 3, ..band };
    assert!(draw_bubble(low, sprite, Some("x"), None, 0).is_none());
    let thin = Area { width: 13, ..band };
    assert!(draw_bubble(thin, sprite, Some("x"), None, 0).is_none());
}

#[test]
fn frames_go_round() {
    assert_eq!(next_frame(0, 3), 1);
    assert_eq!(next_frame(2, 3), 0);
    assert_eq!(next_frame(0, 1), 0);
}

// ---------------------------------------------------------------------------------------------
// The display
// ---------------------------------------------------------------------------------------------

#[test]
fn reports_are_applied_in_order() {
    let mut d = Display::default();
    let queue = vec![
        UiEvent::Ready,
        UiEvent::Token("Call".to_string()),
        UiEvent::Token(" me".to_string()),
        UiEvent::Pending(Some("A th".to_string())),
        UiEvent::Settled("A thought.".to_string()),
        UiEvent::Pending(None),
    ];
    assert!(d.drain(queue, true));
    assert_eq!(d.prose, "Call me");
    assert_eq!(d.pending, None);
    assert_eq!(d.asides, ["A thought."]);
    assert!(!d.done);
    assert!(!d.drain(vec![UiEvent::Done], false));
    assert!(d.done);
}

#[test]
fn the_display_keeps_the_latest() {
    let mut d = Display::default();
    for i in 0..30 {
        d.apply(UiEvent::Settled(format!("{i}")));
    }
    assert_eq!(d.asides.len(), MAX_RECENT);
    assert_eq!(d.asides[0], "6");
    assert_eq!(d.asides[23], "29");
    d.apply(UiEvent::Token("x".repeat(PROSE_TAIL_CHARS)));
    d.apply(UiEvent::Token("é".to_string()));
    assert_eq!(d.prose.len(), PROSE_TAIL_CHARS);
    assert!(d.prose.ends_with("xé"));
    // A character is never split: one byte too many takes a whole one away.
    let mut e = Display::default();
    e.apply(UiEvent::Token("é".repeat(PROSE_TAIL_CHARS / 2)));
    e.apply(UiEvent::Token("x".to_string()));
    assert_eq!(e.prose.len(), PROSE_TAIL_CHARS - 1);
}

#[test]
fn how_often_the_display_drains_does_not_matter() {
    let queue = || {
        (0..40).map(|i| {
            if i % 3 == 0 {
                UiEvent::Settled(format!("aside {i}"))
            } else {
                UiEvent::Token(format!("tok{i} "))
            }
        })
    };
    let mut once = Display::default();
    once.drain(queue().collect(), true);
    let mut often = Display::default();
    for e in queue() {
        often.drain(vec![e], true);
    }
    assert_eq!((once.prose, once.asides), (often.prose, often.asides));
}

// ---------------------------------------------------------------------------------------------
// Keys and shading
// ---------------------------------------------------------------------------------------------

#[test]
fn keys_do_what_they_say() {
    assert_eq!(action_of(Key::Char('q')), Action::Quit);
    assert_eq!(action_of(Key::Esc), Action::Quit);
    assert_eq!(action_of(Key::Char(' ')), Action::TogglePause);
    assert_eq!(action_of(Key::Char('+')), Action::Raise);
    assert_eq!(action_of(Key::Char('=')), Action::Raise);
    assert_eq!(action_of(Key::Char('-')), Action::Lower);
    assert_eq!(action_of(Key::Char('_')), Action::Lower);
    assert_eq!(action_of(Key::Char('x')), Action::Nothing);
    assert_eq!(action_of(Key::Other), Action::Nothing);
}

#[test]
fn actions_become_controls() {
    assert_eq!(control_of(Action::Quit, false), Some(Control::Quit));
    assert_eq!(control_of(Action::TogglePause, true), Some(Control::Pause(false)));
    assert_eq!(control_of(Action::Raise, false), Some(Control::AdjustZ(F32(RAISE_BITS))));
    assert_eq!(control_of(Action::Lower, false), Some(Control::AdjustZ(F32(LOWER_BITS))));
    assert_eq!(control_of(Action::Nothing, false), None);
    assert_eq!(f32::from_bits(RAISE_BITS), 0.25);
    assert_eq!(f32::from_bits(LOWER_BITS), -0.25);
}

#[test]
fn hotter_scores_are_shaded_hotter() {
    let shade = |z: f32| shade_style(F32(z.to_bits()));
    assert_eq!(shade(-3.0), Shade::Calm);
    assert_eq!(shade(0.99), Shade::Calm);
    assert_eq!(shade(1.0), Shade::Mild);
    assert_eq!(shade(2.5), Shade::Warm);
    assert_eq!(shade(3.0), Shade::Hot);
    assert_eq!(shade(4.0), Shade::Burning);
    assert_eq!(shade(f32::NAN), Shade::Calm);
    let bounds = [ONE_BITS, TWO_BITS, THREE_BITS, FOUR_BITS].map(f32::from_bits);
    assert_eq!(bounds, [1.0, 2.0, 3.0, 4.0]);
}

#[test]
fn blanks_are_made_visible() {
    assert_eq!(clean("a\n\tb c"), "a⏎→b c");
}

#[test]
fn the_panel_of_asides_is_newest_first() {
    let mut p = Panels::default();
    p.interjections = owned(&[">> one", ">> two"]);
    p.pending = Some(String::new());
    let lines: Vec<(String, bool)> = p.side_lines().into_iter().map(|l| (l.text, l.live)).collect();
    assert_eq!(
        lines,
        [
            ("💭 thinking…".to_string(), true),
            (">> two".to_string(), false),
            (">> one".to_string(), false),
        ]
    );
}

// ---------------------------------------------------------------------------------------------
// Feeding and choosing
// ---------------------------------------------------------------------------------------------

#[test]
fn the_stream_starts_at_its_marker() {
    assert_eq!(skip_to("Etymology. Call me Ishmael. Call me", "Call me"), "Call me Ishmael. Call me");
    assert_eq!(skip_to("Etymology.", "Call me"), "Etymology.");
    assert_eq!(skip_to("Etymology.", ""), "Etymology.");
    assert_eq!(skip_to("é é", "é"), "é é");
}

#[test]
fn lines_are_cut_into_chunks() {
    assert_eq!(line_chunks("call  me", Granularity::Line), ["call  me\n"]);
    assert_eq!(line_chunks(" call  me ", Granularity::Word), ["call ", "me "]);
    assert_eq!(line_chunks("", Granularity::Line), ["\n"]);
    assert!(line_chunks("  ", Granularity::Word).is_empty());
}

fn options() -> Options {
    Options {
        signal: Signal::Entropy,
        identifiers_only: true,
        evict: EvictMode::Reset,
        keep_recent: 7,
        interject_mode: InterjectMode::Snippet,
        ask_mode: AskMode::Continuous,
        novelty: NoveltyMode::Form,
        interject_temp: F32(1),
        interject_top_p: F32(2),
        interject_max: 8,
        prefill_chunk: 9,
        refractory: 10,
        dedup: F32(3),
        debug_topk: 11,
        debug_full_logits: true,
        deterministic: false,
        no_interject: false,
        no_frame: true,
        no_rag: false,
        no_scene: false,
        preamble: String::new(),
        preamble_file: Some(String::new()),
        rag_corpus: None,
        rag_embed_model: Some("embed.gguf".to_string()),
        input: "novel.txt".to_string(),
        mode: Mode::Headless,
        granularity: Granularity::Line,
    }
}

#[test]
fn the_context_mode_is_always_framed() {
    let mut o = options();
    assert!(!o.frame() && !o.framed());
    o.interject_mode = InterjectMode::Context;
    assert!(!o.frame() && o.framed());
    o.interject_mode = InterjectMode::Snippet;
    o.no_frame = false;
    assert!(o.framed());
}

#[test]
fn the_system_prompt_has_an_order_of_precedence() {
    let mut o = options();
    assert_eq!(o.persona_path(), None);
    assert_eq!(o.system_prompt(None), DEFAULT_SYSTEM_PROMPT);
    o.preamble = "Be brief.".to_string();
    assert_eq!(o.system_prompt(None), "Be brief.");
    o.preamble_file = Some("personas/herzog.txt".to_string());
    assert_eq!(o.persona_path(), Some("personas/herzog.txt"));
    assert_eq!(o.system_prompt(Some("  You are Werner.\n")), "You are Werner.");
}

#[test]
fn the_text_that_is_read_is_searched() {
    let mut o = options();
    assert_eq!(o.rag_corpus_path(), "novel.txt");
    o.rag_corpus = Some("other.txt".to_string());
    assert_eq!(o.rag_corpus_path(), "other.txt");
    assert_eq!(o.retriever(), Retriever::Hybrid);
    o.rag_embed_model = Some(String::new());
    assert_eq!(o.retriever(), Retriever::Lexical);
    o.rag_embed_model = None;
    assert_eq!(o.retriever(), Retriever::Lexical);
    o.no_rag = true;
    assert_eq!(o.retriever(), Retriever::Off);
    assert!(!o.rag() && o.scene() && o.interject_on());
}

#[test]
fn a_run_is_the_same_every_time_only_where_asked() {
    let mut o = options();
    let c = o.lobe_config(42);
    assert_eq!(c.seed, Some(42));
    assert_eq!(f32::from_bits(c.fire_softness.0), 0.5);
    assert_eq!(c.fire_softness, F32(FIRE_SOFTNESS_BITS));
    assert_eq!((c.keep_recent, c.interject_max, c.prefill_chunk), (7, 8, 9));
    assert_eq!((c.refractory, c.debug.topk, c.debug.full_logits), (10, 11, true));
    o.deterministic = true;
    let c = o.lobe_config(42);
    assert_eq!((c.seed, c.fire_softness), (None, F32(0)));
    assert_eq!(o.aside_length(), Some(8));
    o.no_interject = true;
    assert_eq!(o.aside_length(), None);
}

#[test]
fn signals_have_names() {
    assert_eq!(signal_name(Signal::Surprisal), "surprisal");
    assert_eq!(signal_name(Signal::Entropy), "entropy");
}
