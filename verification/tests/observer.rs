use std::cell::RefCell;
use std::collections::{HashMap, VecDeque};
use stream_observer::backend::{
    Backend, CandleBackend, Decode, Detok, Session, SessionConfig, Token,
};
use stream_observer::headless::{
    process_fused_token, process_observe_token, Event, Meter, FUSED_STATS_EVERY, STATS_EVERY,
};
use stream_observer::lobe::firing::{looks_like_identifier, Firing};
use stream_observer::lobe::fused::{decode_lanes, Lane};
use stream_observer::lobe::interject::{InterjectStatus, InterjectStep};
use stream_observer::lobe::novelty::{opening, InterjectionMemory};
use stream_observer::lobe::rag::{extract_tool_arg, parse_rag_output, Source};
use stream_observer::lobe::sampling::{
    argmax, ends_sentence, next_unit_f32, sample_topp, top_ids, trim_snippet, word_aligned,
};
use stream_observer::lobe::types::{
    AskMode, EvictMode, InterjectMode, LobeConfig, LobeError, NoveltyMode, Signal, Step,
};
use stream_observer::lobe::window::StreamWindow;
use stream_observer::lobe::{Lobe, GEN_SEQ, INTERJECT_SENTENCE_SLACK, RESET_SETTLE};
use stream_observer::feed::Granularity;
use stream_observer::number::F32;
use stream_observer::numerics::Numerics;
use stream_observer::options::{Mode, Options};
use stream_observer::prompt::rag_tool_response;
use stream_observer::present_worker::{take_token, Control, Move, Pace, UiEvent};
use stream_observer::startup::open_observer;
use stream_observer::stats::Welford;
use stream_observer::tui::{press, Action, Panels};

/// The arithmetic, in `f32`.
struct Float;

fn f(x: F32) -> f32 {
    f32::from_bits(x.0)
}

fn b(x: f32) -> F32 {
    F32(x.to_bits())
}

fn floats(row: &Vec<F32>) -> Vec<f32> {
    row.iter().map(|x| f(*x)).collect()
}

fn log_sum_exp(row: &[f32]) -> f32 {
    let max = row.iter().copied().fold(f32::NEG_INFINITY, f32::max);
    let sum: f32 = row.iter().map(|v| (v - max).exp()).sum();
    max + sum.ln()
}

fn std_of(stats: &Welford) -> f32 {
    let var = if stats.window > 0 {
        f(stats.var_ewma)
    } else if stats.count() < 2 {
        0.0
    } else {
        f(stats.m2) / (stats.count() - 1) as f32
    };
    var.sqrt()
}

impl Numerics for Float {
    fn surprisal(&self, row: &Vec<F32>, tok: Token) -> F32 {
        let row = floats(row);
        b(log_sum_exp(&row) - row[tok.0 as usize])
    }
    fn entropy(&self, row: &Vec<F32>) -> F32 {
        let row = floats(row);
        let l = log_sum_exp(&row);
        b(row.iter().map(|v| (v - l).exp() * (l - v)).sum())
    }
    fn spread(&self, row: &Vec<F32>) -> F32 {
        self.entropy(row)
    }
    fn share(&self, row: &Vec<F32>, id: usize) -> F32 {
        let row = floats(row);
        let max = row.iter().copied().fold(f32::NEG_INFINITY, f32::max);
        let sum: f32 = row.iter().map(|v| (v - max).exp()).sum();
        b((row[id] - max).exp() / sum)
    }
    fn z(&self, stats: &Welford, x: F32) -> F32 {
        let s = std_of(stats);
        b(if s <= 1e-6 { 0.0 } else { (f(x) - f(stats.mean())) / s })
    }
    fn moments(&self, stats: &Welford, x: F32) -> (F32, F32) {
        let delta = f(x) - f(stats.mean());
        if stats.window > 0 {
            let a = 2.0 / (stats.window as f32 + 1.0);
            let mean = f(stats.mean()) + a * delta;
            let var = (1.0 - a) * (f(stats.var_ewma) + a * delta * delta);
            (b(mean), b(var))
        } else {
            let mean = f(stats.mean()) + delta / (stats.count() + 1) as f32;
            (b(mean), b(f(stats.m2) + delta * (f(x) - mean)))
        }
    }
    fn chance(&self, z: F32, z_threshold: F32, softness: F32) -> F32 {
        b(1.0 / (1.0 + (-(f(z) - f(z_threshold)) / f(softness)).exp()))
    }
    fn weight(&self, logit: F32, max: F32, temp: F32) -> F32 {
        b(((f(logit) - f(max)) * (1.0 / f(temp))).exp())
    }
    fn plus(&self, x: F32, y: F32) -> F32 {
        b(f(x) + f(y))
    }
    fn times(&self, x: F32, y: F32) -> F32 {
        b(f(x) * f(y))
    }
    fn over(&self, x: F32, y: F32) -> F32 {
        b(f(x) / f(y))
    }
    fn nudged(&self, z: F32, by: F32) -> F32 {
        b((f(z) + f(by)).clamp(0.0, 12.0))
    }
    fn raised(&self, z: F32) -> F32 {
        b((f(z) + 0.25).min(12.0))
    }
    fn lowered(&self, z: F32) -> F32 {
        b((f(z) - 0.25).max(0.0))
    }
    fn height(&self, surprisal: F32) -> u64 {
        (f(surprisal) * 10.0).clamp(0.0, 1000.0) as u64
    }
    fn ratio(&self, part: usize, whole: usize) -> F32 {
        b(part as f32 / whole as f32)
    }
}

/// A model without weights: every pass predicts the same ramp, token `i` at `-i`. The next tokens of a
/// reply can be scripted: then the scratch sequence predicts those one after the other.
struct MockBackend {
    n_vocab: usize,
    /// What the scratch sequence predicts next.
    script: RefCell<VecDeque<i32>>,
    /// How many passes succeed before one fails.
    passes: RefCell<Option<usize>>,
    /// Does the tokenizer give no tokens?
    mute: bool,
    /// Does the tokenizer refuse?
    refuses: bool,
}

/// The pieces that the scripted replies are made of; a token beyond them is `t` and its number.
const PIECES: [&str; 8] = ["The", " whale", " rises", ".", "<turn|>", "<|turn>", " sea", " turns"];

impl MockBackend {
    fn new(n_vocab: usize) -> Self {
        MockBackend {
            n_vocab,
            script: RefCell::new(VecDeque::new()),
            passes: RefCell::new(None),
            mute: false,
            refuses: false,
        }
    }

    fn say(&self, toks: &[i32]) {
        self.script.borrow_mut().extend(toks.iter().copied());
    }

    fn fail_after(&self, n: usize) {
        *self.passes.borrow_mut() = Some(n);
    }
}

/// A backend whose tokens have texts.
struct Wordy {
    inner: MockBackend,
}

struct MockSession<'a> {
    backend: &'a MockBackend,
    last: Vec<Vec<F32>>,
    seq_pos: HashMap<u32, i32>,
}

fn ramp(n: usize) -> Vec<F32> {
    (0..n).map(|i| b(-(i as f32))).collect()
}

impl Backend for MockBackend {
    type Session<'a>
        = MockSession<'a>
    where
        Self: 'a;
    fn load(_path: &str, _gpu_layers: u32, _verbose: bool) -> Result<Self, String> {
        Ok(Self::new(8))
    }
    fn n_vocab(&self) -> usize {
        self.n_vocab
    }
    fn tokenize(&self, text: &str, _add_bos: bool) -> Result<Vec<Token>, String> {
        if self.refuses {
            return Err("refused".to_string());
        }
        if self.mute {
            return Ok(Vec::new());
        }
        Ok(text.bytes().map(|b| Token((b as usize % self.n_vocab) as i32)).collect())
    }
    fn detok(&self, token: Token, _mode: Detok) -> String {
        format!("t{}", token.0)
    }
    fn is_eog(&self, _token: Token) -> bool {
        false
    }
    fn special_token(&self, _text: &str) -> Option<Token> {
        None
    }
    fn session(&self, _cfg: SessionConfig) -> Result<MockSession<'_>, String> {
        Ok(MockSession { backend: self, last: Vec::new(), seq_pos: HashMap::new() })
    }
}

impl Session for MockSession<'_> {
    fn decode(&mut self, batch: &[Decode]) -> Result<(), String> {
        if let Some(n) = self.backend.passes.borrow_mut().as_mut() {
            if *n == 0 {
                return Err("pass failed".to_string());
            }
            *n -= 1;
        }
        self.last = batch
            .iter()
            .map(|d| {
                let mut row = ramp(self.backend.n_vocab);
                if d.seq == GEN_SEQ && d.logits {
                    if let Some(t) = self.backend.script.borrow_mut().pop_front() {
                        row[t as usize] = b(50.0);
                    }
                }
                row
            })
            .collect();
        for d in batch {
            let e = self.seq_pos.entry(d.seq).or_insert(-1);
            *e = (*e).max(d.pos);
        }
        Ok(())
    }
    fn logits(&self, i: usize) -> Vec<F32> {
        self.last[i].clone()
    }
    fn clear_seq(&mut self, seq: u32) -> Result<(), String> {
        self.seq_pos.insert(seq, -1);
        Ok(())
    }
    fn copy_seq(&mut self, src: u32, dst: u32) -> Result<(), String> {
        let p = self.seq_pos_max(src);
        self.seq_pos.insert(dst, p);
        Ok(())
    }
    fn seq_pos_max(&self, seq: u32) -> i32 {
        self.seq_pos.get(&seq).copied().unwrap_or(-1)
    }
}

impl Backend for Wordy {
    type Session<'a>
        = MockSession<'a>
    where
        Self: 'a;
    fn load(_path: &str, _gpu_layers: u32, _verbose: bool) -> Result<Self, String> {
        Ok(Wordy { inner: MockBackend::new(16) })
    }
    fn n_vocab(&self) -> usize {
        self.inner.n_vocab()
    }
    fn tokenize(&self, text: &str, add_bos: bool) -> Result<Vec<Token>, String> {
        self.inner.tokenize(text, add_bos)
    }
    fn detok(&self, token: Token, mode: Detok) -> String {
        let i = token.0 as usize;
        if i == 4 || i == 5 {
            return if mode == Detok::Text { PIECES[i].to_string() } else { String::new() };
        }
        PIECES.get(i).map(|s| s.to_string()).unwrap_or_else(|| format!(" t{i}"))
    }
    fn is_eog(&self, _token: Token) -> bool {
        false
    }
    fn special_token(&self, text: &str) -> Option<Token> {
        PIECES.iter().position(|p| *p == text).map(|i| Token(i as i32))
    }
    fn session(&self, cfg: SessionConfig) -> Result<MockSession<'_>, String> {
        self.inner.session(cfg)
    }
}

fn wordy() -> Wordy {
    Wordy { inner: MockBackend::new(16) }
}

/// Greedy asides, so that a script is followed to the letter.
fn greedy() -> LobeConfig {
    LobeConfig { interject_temp: b(0.0), ..LobeConfig::default() }
}

fn nothing(_q: &str) -> Option<String> {
    None
}

/// Warm the baseline until the next high token fires.
fn warm<B: Backend>(lobe: &mut Lobe<B>, stats: &mut Welford) {
    for id in [0, 1, 0, 1, 0] {
        assert!(!lobe.observe(Token(id), stats, b(3.0), 5, &Float).unwrap().fired);
    }
}

// ---------------------------------------------------------------------------------------------
// Firing
// ---------------------------------------------------------------------------------------------

#[test]
fn fires_on_threshold_crossing_when_warm() {
    let mut f = Firing::default();
    let (fired, in_refractory, gate) = f.decide("token", b(4.0), b(3.0), true, false, &Float);
    assert!(fired);
    assert!(!in_refractory);
    assert!(gate);
}

#[test]
fn does_not_fire_below_threshold() {
    let mut f = Firing::default();
    assert!(!f.decide("token", b(2.9), b(3.0), true, false, &Float).0);
}

#[test]
fn cold_baseline_suppresses() {
    let mut f = Firing::default();
    assert!(!f.decide("token", b(9.0), b(3.0), false, false, &Float).0);
}

#[test]
fn settle_suppression_blocks_firing() {
    let mut f = Firing::default();
    assert!(!f.decide("token", b(9.0), b(3.0), true, true, &Float).0);
}

#[test]
fn refractory_blocks_period_tokens_then_reopens() {
    let mut f = Firing::default();
    f.set_refractory(3);
    assert!(f.decide("a", b(9.0), b(3.0), true, false, &Float).0);
    for _ in 0..3 {
        assert!(!f.decide("a", b(9.0), b(3.0), true, false, &Float).0);
    }
    assert!(f.decide("a", b(9.0), b(3.0), true, false, &Float).0);
}

#[test]
fn identifier_gate_blocks_non_identifiers() {
    let mut f = Firing::default();
    f.set_signal(Signal::Surprisal, true);
    let (fired, _, gate) = f.decide("the", b(9.0), b(3.0), true, false, &Float);
    assert!(!fired);
    assert!(!gate);
    assert!(f.decide("Ishmael", b(9.0), b(3.0), true, false, &Float).0);
}

#[test]
fn stochastic_firing_is_reproducible_and_monotone_in_z() {
    let run = |z: f32| {
        let mut f = Firing::default();
        f.set_softness(b(0.5));
        f.seed_rng(0x1234_5678);
        f.decide("t", b(z), b(3.0), true, false, &Float).0
    };
    assert_eq!(run(9.0), run(9.0));
    assert!(run(20.0));
    assert!(!run(-20.0));
}

#[test]
fn looks_like_identifier_heuristic() {
    assert!(looks_like_identifier("Ishmael"));
    assert!(looks_like_identifier("snake_case"));
    assert!(looks_like_identifier("v2"));
    assert!(!looks_like_identifier("the"));
    assert!(!looks_like_identifier("x"));
    assert!(!looks_like_identifier("hello,"));
}

#[test]
fn identifiers_are_read_around_blanks_and_beyond_ascii() {
    assert!(looks_like_identifier(" Ahab "));
    assert!(looks_like_identifier("Élan"));
    assert!(!looks_like_identifier("élan"));
    // One character of two bytes is long enough.
    assert!(looks_like_identifier("É"));
    assert!(!looks_like_identifier(""));
}

#[test]
fn gates_that_are_shut_draw_no_randomness() {
    let mut f = Firing::default();
    f.set_softness(b(0.5));
    f.seed_rng(77);
    f.decide("t", b(9.0), b(3.0), false, false, &Float);
    f.decide("t", b(9.0), b(3.0), true, true, &Float);
    assert_eq!(f.fire_rng, 77);
    f.decide("t", b(9.0), b(3.0), true, false, &Float);
    assert_ne!(f.fire_rng, 77);
}

#[test]
fn a_score_that_is_no_number_never_fires() {
    let mut f = Firing::default();
    assert!(!f.decide("t", b(f32::NAN), b(3.0), true, false, &Float).0);
    assert!(f.decide("t", b(f32::INFINITY), b(3.0), true, false, &Float).0);
}

// ---------------------------------------------------------------------------------------------
// The fused pass
// ---------------------------------------------------------------------------------------------

#[test]
fn decode_lanes_returns_one_logit_row_per_lane() {
    let backend = MockBackend::new(8);
    let mut session = backend
        .session(SessionConfig { n_ctx: 64, n_batch: 64, n_seq_max: 2, kv_unified: true })
        .unwrap();
    let lanes = vec![
        Lane { token: Token(3), pos: 0, seq: 0, logits: true },
        Lane { token: Token(5), pos: 0, seq: 1, logits: true },
    ];
    let logits = decode_lanes(&mut session, &lanes).unwrap();
    assert_eq!(logits.len(), 2);
    assert!(logits.iter().all(|row| row.len() == 8));
    let one = decode_lanes(&mut session, &lanes[..1].to_vec()).unwrap();
    assert_eq!(one.len(), 1);
    let mixed = vec![
        Lane { token: Token(2), pos: 1, seq: 0, logits: true },
        Lane { token: Token(4), pos: 1, seq: 1, logits: false },
    ];
    let rows = decode_lanes(&mut session, &mixed).unwrap();
    assert_eq!(rows[0].len(), 8);
    assert!(rows[1].is_empty());
}

// ---------------------------------------------------------------------------------------------
// Observing
// ---------------------------------------------------------------------------------------------

#[test]
fn first_token_is_neutral() {
    let backend = MockBackend::new(8);
    let mut lobe = Lobe::new(&backend, 2048, LobeConfig::default()).unwrap();
    let mut stats = Welford::new(2, 0);
    let step = lobe.observe(Token(3), &mut stats, b(3.0), 5, &Float).unwrap();
    assert_eq!(f(step.surprisal), 0.0);
    assert!(!step.fired);
    assert_eq!(step.stream_index, 0);
    assert_eq!(lobe.position(), 1);
}

#[test]
fn observe_advances_position_and_index() {
    let backend = MockBackend::new(8);
    let mut lobe = Lobe::new(&backend, 2048, LobeConfig::default()).unwrap();
    let mut stats = Welford::new(2, 0);
    for i in 0..5 {
        let step = lobe.observe(Token(i % 4), &mut stats, b(3.0), 5, &Float).unwrap();
        assert_eq!(step.stream_index, i as usize);
    }
    assert_eq!(lobe.position(), 5);
}

#[test]
fn high_surprisal_fires_after_warmup() {
    let backend = MockBackend::new(8);
    let mut lobe = Lobe::new(&backend, 2048, LobeConfig::default()).unwrap();
    let mut stats = Welford::new(2, 0);
    for &id in &[0, 1, 0, 1, 0] {
        assert!(!lobe.observe(Token(id), &mut stats, b(3.0), 5, &Float).unwrap().fired);
    }
    let spike = lobe.observe(Token(7), &mut stats, b(3.0), 5, &Float).unwrap();
    assert!(spike.fired);
    let trigger = spike.trigger.expect("a fired step carries a trigger");
    assert!(f(trigger.surprisal) > 5.0);
    assert!(!trigger.expected.is_empty());
}

#[test]
fn a_step_scores_as_observing_does() {
    let backend = MockBackend::new(8);
    let mut lobe = Lobe::new(&backend, 2048, LobeConfig::default()).unwrap();
    let mut stats = Welford::new(2, 0);
    for &id in &[0, 1, 0, 1, 0] {
        let r = lobe.step(Token(id), &mut stats, b(3.0), 5, 80, &nothing, &Float).unwrap();
        assert!(!r.step.fired);
    }
    let r = lobe.step(Token(7), &mut stats, b(3.0), 5, 80, &nothing, &Float).unwrap();
    assert!(r.step.fired);
    assert_eq!(r.step.stream_index, 5);
    assert!((f(r.step.surprisal) - 7.458).abs() < 0.01);
    assert!((f(r.step.z) - 11.26).abs() < 0.05);
    assert!(r.step.trigger.is_some());
    assert_eq!(stats.count(), 5);
}

/// A backend that expects each token to be followed by the next.
struct Counting {
    inner: MockBackend,
}

struct CountingSession<'a> {
    inner: MockSession<'a>,
}

impl Backend for Counting {
    type Session<'a>
        = CountingSession<'a>
    where
        Self: 'a;
    fn load(_path: &str, _gpu_layers: u32, _verbose: bool) -> Result<Self, String> {
        Ok(Counting { inner: MockBackend::new(16) })
    }
    fn n_vocab(&self) -> usize {
        self.inner.n_vocab()
    }
    fn tokenize(&self, _text: &str, _add_bos: bool) -> Result<Vec<Token>, String> {
        Ok(vec![Token(9), Token(2)])
    }
    fn detok(&self, token: Token, _mode: Detok) -> String {
        format!(" {}", token.0)
    }
    fn is_eog(&self, token: Token) -> bool {
        token.0 == 7
    }
    fn special_token(&self, _text: &str) -> Option<Token> {
        None
    }
    fn session(&self, cfg: SessionConfig) -> Result<CountingSession<'_>, String> {
        Ok(CountingSession { inner: self.inner.session(cfg)? })
    }
}

impl Session for CountingSession<'_> {
    fn decode(&mut self, batch: &[Decode]) -> Result<(), String> {
        self.inner.decode(batch)?;
        let n = self.inner.backend.n_vocab;
        self.inner.last = batch
            .iter()
            .map(|d| {
                let mut row = ramp(n);
                row[(d.token.0 as usize + 1) % n] = b(50.0);
                row
            })
            .collect();
        Ok(())
    }
    fn logits(&self, i: usize) -> Vec<F32> {
        self.inner.logits(i)
    }
    fn clear_seq(&mut self, seq: u32) -> Result<(), String> {
        self.inner.clear_seq(seq)
    }
    fn copy_seq(&mut self, src: u32, dst: u32) -> Result<(), String> {
        self.inner.copy_seq(src, dst)
    }
    fn seq_pos_max(&self, seq: u32) -> i32 {
        self.inner.seq_pos_max(seq)
    }
}

#[test]
fn each_token_is_scored_by_the_row_of_the_one_before() {
    let backend = Counting { inner: MockBackend::new(16) };
    let mut lobe = Lobe::new(&backend, 8192, greedy()).unwrap();
    let mut stats = Welford::new(2, 0);
    for (t, expected) in [(3, false), (4, true), (5, true), (9, false), (10, true)] {
        let first = lobe.position() == 0;
        let r = lobe.step(Token(t), &mut stats, b(1e9), 1, 20, &nothing, &Float).unwrap();
        assert!(first || (f(r.step.surprisal) < 0.01) == expected);
    }
}

#[test]
fn an_aside_speaks_from_its_own_rows() {
    let backend = Counting { inner: MockBackend::new(16) };
    let mut lobe = Lobe::new(&backend, 8192, greedy()).unwrap();
    lobe.prime(&vec![Token(11)]).unwrap();
    // The ask ends in 2; the reply counts on from there.
    assert_eq!(lobe.interject("x", 20, None, &Float).unwrap(), " 3 4 5 6");
    let out = lobe.rag("x", 20, &|_s: Source, _q: &str| None).unwrap();
    assert_eq!(out.thought, "3 4 5 6");
    // Alongside a stream that counts elsewhere too.
    let mut stats = Welford::new(2, 0);
    for t in [12, 13, 14] {
        lobe.step(Token(t), &mut stats, b(3.0), 1, 20, &nothing, &Float).unwrap();
    }
    lobe.start_fused_interjection(20, None).unwrap();
    let mut said = None;
    for i in 0..8 {
        let tok = Token((15 + i) % 16);
        let r = lobe.step(tok, &mut stats, b(1e9), 1, 20, &nothing, &Float).unwrap();
        assert!(f(r.step.surprisal) < 0.01);
        if let InterjectStatus::Done(text) = r.interjection {
            said = Some(text);
        }
    }
    assert_eq!(said.unwrap(), " 3 4 5 6");
}

#[test]
fn entropy_signal_does_not_fire_on_constant_distribution() {
    let backend = MockBackend::new(8);
    let cfg = LobeConfig { signal: Signal::Entropy, ..LobeConfig::default() };
    let mut lobe = Lobe::new(&backend, 2048, cfg).unwrap();
    let mut stats = Welford::new(2, 0);
    for &id in &[0, 1, 7, 2, 7, 0, 7] {
        assert!(!lobe.observe(Token(id), &mut stats, b(3.0), 5, &Float).unwrap().fired);
    }
}

#[test]
fn cap_reset_rolls_and_continues() {
    let backend = MockBackend::new(8);
    let cfg = LobeConfig { keep_recent: 64, ..LobeConfig::default() };
    let mut lobe = Lobe::new(&backend, 512, cfg).unwrap();
    let preamble = lobe.tokenize("sink", true).unwrap();
    lobe.prime(&preamble).unwrap();
    let mut stats = Welford::new(2, 0);
    for i in 0..400 {
        lobe.observe(Token(i % 5), &mut stats, b(3.0), 5, &Float).unwrap();
    }
    assert!(lobe.resets() >= 1);
    assert!(lobe.position() < 512);
}

#[test]
fn top_k_is_descending_by_probability_and_normalized() {
    let logits = vec![b(1.0), b(3.0), b(2.0), b(0.0)];
    let ids = top_ids(&logits, 2);
    let top: Vec<(usize, f32)> = ids.iter().map(|&i| (i, f(Float.share(&logits, i)))).collect();
    assert_eq!(top[0].0, 1);
    assert_eq!(top[1].0, 2);
    assert!(top[0].1 > top[1].1);
    assert!(top[0].1 < 1.0 && top[0].1 > 0.0);
}

#[test]
fn a_trigger_says_what_was_expected() {
    let backend = MockBackend::new(8);
    let mut lobe = Lobe::new(&backend, 2048, LobeConfig::default()).unwrap();
    let mut stats = Welford::new(2, 0);
    warm(&mut lobe, &mut stats);
    let step = lobe.observe(Token(7), &mut stats, b(3.0), 3, &Float).unwrap();
    let t = step.trigger.unwrap();
    assert_eq!(t.stream_index, 5);
    assert_eq!(t.token_text, "t7");
    let names: Vec<&str> = t.expected.iter().map(|(s, _)| s.as_str()).collect();
    assert_eq!(names, ["t0", "t1", "t2"]);
    // The ramp's normalizer is 1 + e^-1 + ... + e^-7.
    let z: f32 = (0..8).map(|i| (-(i as f32)).exp()).sum();
    assert!((f(t.expected[0].1) - 1.0 / z).abs() < 1e-6);
    assert!((f(t.surprisal) - (z.ln() + 7.0)).abs() < 1e-5);
}

#[test]
fn a_token_is_measured_against_the_baseline_before_it() {
    let backend = MockBackend::new(8);
    let mut lobe = Lobe::new(&backend, 2048, LobeConfig::default()).unwrap();
    let mut stats = Welford::new(0, 0);
    lobe.observe(Token(0), &mut stats, b(3.0), 1, &Float).unwrap();
    assert_eq!(stats.count(), 0);
    let one = lobe.observe(Token(0), &mut stats, b(3.0), 1, &Float).unwrap();
    assert_eq!(f(one.z), 0.0);
    assert_eq!(stats.count(), 1);
    let two = lobe.observe(Token(2), &mut stats, b(3.0), 1, &Float).unwrap();
    assert_eq!(f(two.z), 0.0);
    // Baseline: two values two apart, so the mean lies one above the first and the spread is the root
    // of two.
    let three = lobe.observe(Token(3), &mut stats, b(3.0), 1, &Float).unwrap();
    assert!((f(three.z) - 2.0 / 2.0f32.sqrt()).abs() < 1e-4);
    assert_eq!(stats.count(), 3);
}

#[test]
fn firing_is_suppressed_right_after_a_reset() {
    let backend = MockBackend::new(8);
    let cfg = LobeConfig { keep_recent: 8, ..LobeConfig::default() };
    let mut lobe = Lobe::new(&backend, 512, cfg).unwrap();
    lobe.prime(&vec![Token(1), Token(2)]).unwrap();
    let mut stats = Welford::new(2, 0);
    let mut fed = 0;
    while lobe.resets() == 0 {
        lobe.observe(Token(fed % 2), &mut stats, b(100.0), 1, &Float).unwrap();
        fed += 1;
    }
    for _ in 0..RESET_SETTLE {
        assert!(!lobe.observe(Token(7), &mut stats, b(0.5), 1, &Float).unwrap().fired);
    }
    let mut fired = false;
    for _ in 0..4 {
        lobe.observe(Token(0), &mut stats, b(100.0), 1, &Float).unwrap();
        fired |= lobe.observe(Token(7), &mut stats, b(0.5), 1, &Float).unwrap().fired;
    }
    assert!(fired);
}

#[test]
fn a_reset_replays_the_preamble_and_the_recent_tokens() {
    let backend = MockBackend::new(8);
    let cfg = LobeConfig { keep_recent: 4, ..LobeConfig::default() };
    let mut lobe = Lobe::new(&backend, 512, cfg).unwrap();
    lobe.prime(&vec![Token(6), Token(5)]).unwrap();
    let mut stats = Welford::new(2, 0);
    let mut last = Vec::new();
    let mut i = 0;
    while lobe.resets() == 0 {
        last.push(Token(i % 5));
        lobe.observe(Token(i % 5), &mut stats, b(100.0), 1, &Float).unwrap();
        i += 1;
    }
    // The token that found the context full was fed after the replay of the four before it.
    let n = last.len();
    let mut held = vec![Token(6), Token(5)];
    held.extend_from_slice(&last[n - 5..]);
    assert_eq!(lobe.window.full_ids(), held);
    assert_eq!(lobe.position() as usize, held.len());
    assert_eq!(lobe.session.seq_pos_max(0), lobe.position() - 1);
}

#[test]
fn without_eviction_nothing_is_ever_reset() {
    let backend = MockBackend::new(8);
    let cfg = LobeConfig { evict: EvictMode::Off, ..LobeConfig::default() };
    let mut lobe = Lobe::new(&backend, 64, cfg).unwrap();
    let mut stats = Welford::new(2, 0);
    for i in 0..200 {
        lobe.observe(Token(i % 5), &mut stats, b(100.0), 1, &Float).unwrap();
    }
    assert_eq!(lobe.resets(), 0);
    assert_eq!(lobe.position(), 200);
}

#[test]
fn priming_clamps_a_window_that_cannot_fit() {
    let backend = MockBackend::new(8);
    let mut lobe = Lobe::new(&backend, 512, LobeConfig::default()).unwrap();
    // The margin is three quarters of the context, 384: 512 - 2 - 384 tokens are left.
    assert_eq!(lobe.roll_margin(), 384);
    assert_eq!(lobe.prime(&vec![Token(1), Token(2)]).unwrap(), Some(4096));
    assert_eq!(lobe.window.keep_recent, 126);
    let cfg = LobeConfig { keep_recent: 16, ..LobeConfig::default() };
    let mut small = Lobe::new(&backend, 512, cfg).unwrap();
    assert_eq!(small.prime(&vec![Token(1)]).unwrap(), None);
}

#[test]
fn the_margin_grows_with_the_length_of_an_aside() {
    let backend = MockBackend::new(8);
    let cfg = LobeConfig { interject_max: 80, ..LobeConfig::default() };
    let lobe = Lobe::new(&backend, 32768, cfg).unwrap();
    assert_eq!(lobe.roll_margin(), 128 + 128 + 400);
    // A small context is never all margin.
    for (n_ctx, margin) in [(256, 192), (64, 48), (3, 2), (1, 0)] {
        let tiny = Lobe::new(&backend, n_ctx, cfg).unwrap();
        assert_eq!(tiny.roll_margin(), margin);
    }
}

#[test]
fn a_small_context_is_read_in_bounded_space() {
    let backend = MockBackend::new(8);
    let cfg = LobeConfig { keep_recent: 8, ..LobeConfig::default() };
    let mut lobe = Lobe::new(&backend, 64, cfg).unwrap();
    lobe.prime(&vec![Token(1), Token(2)]).unwrap();
    let mut stats = Welford::new(2, 0);
    for i in 0..300 {
        lobe.observe(Token(i % 5), &mut stats, b(100.0), 1, &Float).unwrap();
        assert!(lobe.position() <= 17);
    }
    assert!(lobe.resets() > 10);
}

#[test]
fn only_tokens_of_the_vocabulary_can_be_taken() {
    let backend = MockBackend::new(8);
    let mut lobe = Lobe::new(&backend, 2048, LobeConfig::default()).unwrap();
    assert!(lobe.can_take(Token(99)));
    let mut stats = Welford::new(2, 0);
    lobe.observe(Token(1), &mut stats, b(3.0), 1, &Float).unwrap();
    assert!(lobe.can_take(Token(7)));
    assert!(!lobe.can_take(Token(8)));
    assert!(!lobe.can_take(Token(-1)));
}

#[test]
fn the_context_reads_back_as_text() {
    let backend = MockBackend::new(8);
    let mut lobe = Lobe::new(&backend, 2048, LobeConfig::default()).unwrap();
    lobe.prime(&vec![Token(3)]).unwrap();
    let mut stats = Welford::new(2, 0);
    lobe.observe(Token(1), &mut stats, b(3.0), 1, &Float).unwrap();
    lobe.observe(Token(2), &mut stats, b(3.0), 1, &Float).unwrap();
    assert_eq!(lobe.full_context_text(), "t3t1t2");
}

#[test]
fn a_pass_that_fails_is_reported() {
    let backend = MockBackend::new(8);
    let mut lobe = Lobe::new(&backend, 2048, LobeConfig::default()).unwrap();
    let mut stats = Welford::new(2, 0);
    lobe.observe(Token(1), &mut stats, b(3.0), 1, &Float).unwrap();
    backend.fail_after(0);
    let e = lobe.observe(Token(1), &mut stats, b(3.0), 1, &Float).unwrap_err();
    assert!(matches!(e, LobeError::Backend(s) if s == "pass failed"));
    assert_eq!(lobe.position(), 1);
}

#[test]
fn a_tokenizer_that_refuses_is_reported() {
    let mut backend = MockBackend::new(8);
    backend.refuses = true;
    let lobe = Lobe::new(&backend, 2048, LobeConfig::default()).unwrap();
    assert!(matches!(lobe.tokenize("x", true), Err(LobeError::Backend(s)) if s == "refused"));
}

// ---------------------------------------------------------------------------------------------
// Asides
// ---------------------------------------------------------------------------------------------

#[test]
fn an_aside_stops_where_the_turn_closes() {
    let backend = wordy();
    let mut lobe = Lobe::new(&backend, 4096, greedy()).unwrap();
    lobe.prime(&vec![Token(1)]).unwrap();
    backend.inner.say(&[0, 1, 2, 3, 4]);
    assert_eq!(lobe.interject("whale", 20, None, &Float).unwrap(), "The whale rises.");
}

#[test]
fn an_aside_stops_before_another_turn_opens() {
    let backend = wordy();
    let mut lobe = Lobe::new(&backend, 4096, greedy()).unwrap();
    lobe.prime(&vec![Token(1)]).unwrap();
    backend.inner.say(&[0, 1, 5]);
    assert_eq!(lobe.interject("whale", 20, None, &Float).unwrap(), "The whale");
}

#[test]
fn past_its_length_an_aside_runs_on_to_the_end_of_a_sentence() {
    let backend = wordy();
    let mut lobe = Lobe::new(&backend, 4096, greedy()).unwrap();
    lobe.prime(&vec![Token(1)]).unwrap();
    backend.inner.say(&[0, 1, 2, 6, 3, 7, 7]);
    assert_eq!(lobe.interject("whale", 2, None, &Float).unwrap(), "The whale rises sea.");
}

#[test]
fn an_aside_without_an_end_is_cut_once_the_slack_is_used_up() {
    let backend = MockBackend::new(8);
    let mut lobe = Lobe::new(&backend, 4096, greedy()).unwrap();
    lobe.prime(&vec![Token(1)]).unwrap();
    let text = lobe.interject("x", 4, None, &Float).unwrap();
    assert_eq!(text, "t0".repeat(4 + INTERJECT_SENTENCE_SLACK));
}

#[test]
fn an_aside_leaves_observation_alone() {
    let run = |with_asides: bool| {
        let backend = wordy();
        let mut lobe = Lobe::new(&backend, 4096, greedy()).unwrap();
        lobe.prime(&vec![Token(1), Token(2)]).unwrap();
        let mut stats = Welford::new(2, 0);
        let mut seen = Vec::new();
        for i in 0..30 {
            let s = lobe.observe(Token(i * 7 % 11), &mut stats, b(1.0), 2, &Float).unwrap();
            seen.push((s.surprisal.0, s.entropy.0, s.z.0, s.fired));
            if with_asides && s.fired {
                backend.inner.say(&[0, 1, 3, 4]);
                lobe.interject(&s.token_text, 12, None, &Float).unwrap();
                assert_eq!(lobe.session.seq_pos_max(GEN_SEQ), -1);
            }
        }
        (seen, lobe.position(), lobe.window.full_ids())
    };
    let plain = run(false);
    assert!(plain.0.iter().any(|s| s.3));
    assert_eq!(plain, run(true));
}

#[test]
fn pumping_an_aside_shows_it_grow() {
    let backend = wordy();
    let mut lobe = Lobe::new(&backend, 4096, greedy()).unwrap();
    lobe.prime(&vec![Token(1)]).unwrap();
    assert!(matches!(lobe.interject_step(&Float).unwrap(), InterjectStep::Idle));
    backend.inner.say(&[0, 1, 4]);
    lobe.interject_begin("whale", 20, None).unwrap();
    let mut texts = Vec::new();
    loop {
        match lobe.interject_step(&Float).unwrap() {
            InterjectStep::Working(s) => texts.push(s),
            InterjectStep::Done(s) => {
                texts.push(format!("{s}!"));
                break;
            },
            InterjectStep::Idle => panic!("the aside vanished"),
        }
    }
    assert_eq!(texts, ["", "The", "The whale", "The whale!"]);
    assert!(matches!(lobe.interject_step(&Float).unwrap(), InterjectStep::Idle));
}

#[test]
fn an_aside_can_be_abandoned() {
    let backend = wordy();
    let mut lobe = Lobe::new(&backend, 4096, greedy()).unwrap();
    lobe.prime(&vec![Token(1)]).unwrap();
    lobe.interject_begin("whale", 20, None).unwrap();
    lobe.abort_interjection().unwrap();
    assert!(matches!(lobe.interject_step(&Float).unwrap(), InterjectStep::Idle));
    assert_eq!(lobe.position(), 1);
}

#[test]
fn an_ask_without_tokens_is_refused() {
    let mut backend = MockBackend::new(8);
    backend.mute = true;
    let mut lobe = Lobe::new(&backend, 2048, LobeConfig::default()).unwrap();
    assert!(matches!(lobe.interject("x", 4, None, &Float), Err(LobeError::EmptyPrompt)));
    assert!(matches!(
        lobe.rag("x", 4, &|_s: Source, _q: &str| None),
        Err(LobeError::EmptyPrompt)
    ));
}

#[test]
fn a_reply_that_could_not_be_counted_is_refused() {
    let backend = MockBackend::new(8);
    let mut lobe = Lobe::new(&backend, 2048, LobeConfig::default()).unwrap();
    lobe.pos = i32::MAX - 10;
    assert!(matches!(lobe.interject_begin("x", 20, None), Err(LobeError::TooLong)));
}

#[test]
fn a_search_that_ends_by_itself_may_ask_for_any_length() {
    let backend = wordy();
    let mut lobe = Lobe::new(&backend, 8192, greedy()).unwrap();
    backend.inner.say(&[0, 1, 2, 3, 4]);
    let out = lobe.rag("x", usize::MAX, &|_s: Source, _q: &str| None).unwrap();
    assert_eq!(out.thought, "The whale rises.");
    assert!(out.directive.is_none());
}

#[test]
fn asides_are_the_same_in_every_run_that_is_not_seeded() {
    let run = |seed: Option<u64>| {
        let backend = MockBackend::new(8);
        let cfg = LobeConfig { seed, ..LobeConfig::default() };
        let mut lobe = Lobe::new(&backend, 4096, cfg).unwrap();
        lobe.prime(&vec![Token(1)]).unwrap();
        lobe.interject("x", 30, None, &Float).unwrap()
    };
    assert_eq!(run(None), run(None));
    assert_eq!(run(Some(5)), run(Some(5)));
    assert_ne!(run(Some(5)), run(Some(6)));
    // A seed of zero stands for the fixed one.
    assert_eq!(run(Some(0)), run(None));
}

#[test]
fn the_snippet_mode_asks_on_a_fresh_sequence() {
    let backend = wordy();
    let cfg = LobeConfig { interject_mode: InterjectMode::Snippet, ..greedy() };
    let mut lobe = Lobe::new(&backend, 4096, cfg).unwrap();
    lobe.prime(&vec![Token(1); 50]).unwrap();
    lobe.interject_begin("whale", 20, None).unwrap();
    lobe.interject_step(&Float).unwrap();
    let ask = lobe.session.seq_pos_max(GEN_SEQ) + 1;
    lobe.abort_interjection().unwrap();
    let cfg = LobeConfig { interject_mode: InterjectMode::Context, ..greedy() };
    let mut forked = Lobe::new(&backend, 4096, cfg).unwrap();
    forked.prime(&vec![Token(1); 50]).unwrap();
    forked.interject_begin("whale", 20, None).unwrap();
    // The fork takes over the whole live context.
    assert_eq!(forked.session.seq_pos_max(GEN_SEQ), 49);
    forked.interject_step(&Float).unwrap();
    assert!(forked.session.seq_pos_max(GEN_SEQ) >= 50);
    assert!(ask > 0);
}

// ---------------------------------------------------------------------------------------------
// Fused steps
// ---------------------------------------------------------------------------------------------

/// Feed calm tokens until the aside in flight is done; hands back what it showed on the way.
fn run_out<B: Backend>(lobe: &mut Lobe<B>, stats: &mut Welford) -> (Vec<String>, String) {
    let mut partial = Vec::new();
    loop {
        let o = lobe.step(Token(0), stats, b(100.0), 1, 20, &nothing, &Float).unwrap();
        match o.interjection {
            InterjectStatus::Working(s) => partial.push(s),
            InterjectStatus::Done(s) => return (partial, s),
            other => panic!("{other:?}"),
        }
    }
}

#[test]
fn a_fire_starts_an_aside_that_forms_alongside_the_stream() {
    let backend = wordy();
    let cfg = LobeConfig { prefill_chunk: 100, ..greedy() };
    let mut lobe = Lobe::new(&backend, 8192, cfg).unwrap();
    lobe.prime(&vec![Token(1)]).unwrap();
    let mut stats = Welford::new(2, 0);
    warm(&mut lobe, &mut stats);
    backend.inner.say(&[0, 1, 2, 3, 4]);
    let o = lobe.step(Token(15), &mut stats, b(3.0), 5, 20, &nothing, &Float).unwrap();
    assert!(o.step.fired);
    assert!(matches!(o.interjection, InterjectStatus::Started));
    let index = o.step.stream_index;
    let (partial, text) = run_out(&mut lobe, &mut stats);
    assert_eq!(text, "The whale rises.");
    let spoken: Vec<&str> = partial.iter().map(|s| s.as_str()).filter(|s| !s.is_empty()).collect();
    assert_eq!(spoken, ["The", "The whale", "The whale rises"]);
    // The stream was observed on every one of those passes.
    assert_eq!(lobe.stream_index, index + 1 + partial.len() + 1);
    assert_eq!(lobe.session.seq_pos_max(GEN_SEQ), -1);
    assert_eq!(lobe.kv_debug(), (lobe.position() - 1, -1, false));
}

#[test]
fn an_ask_is_prefilled_in_chunks() {
    let ticks = |chunk: usize| {
        let backend = wordy();
        let cfg = LobeConfig { prefill_chunk: chunk, ..greedy() };
        let mut lobe = Lobe::new(&backend, 8192, cfg).unwrap();
        lobe.prime(&vec![Token(1)]).unwrap();
        let mut stats = Welford::new(2, 0);
        warm(&mut lobe, &mut stats);
        backend.inner.say(&[4]);
        lobe.step(Token(15), &mut stats, b(3.0), 5, 20, &nothing, &Float).unwrap();
        run_out(&mut lobe, &mut stats).0.len()
    };
    let (one, ten) = (ticks(1), ticks(10));
    // `one + 1` tokens of ask: the last chunk finishes it and the reply at once.
    assert_eq!(ten, (one + 1).div_ceil(10) - 1);
}

#[test]
fn no_second_aside_starts_while_one_is_in_flight() {
    let backend = wordy();
    let mut lobe = Lobe::new(&backend, 8192, greedy()).unwrap();
    lobe.prime(&vec![Token(1)]).unwrap();
    let mut stats = Welford::new(2, 0);
    warm(&mut lobe, &mut stats);
    let first = lobe.step(Token(15), &mut stats, b(3.0), 5, 20, &nothing, &Float).unwrap();
    assert!(matches!(first.interjection, InterjectStatus::Started));
    let second = lobe.step(Token(15), &mut stats, b(1.0), 5, 20, &nothing, &Float).unwrap();
    assert!(second.step.fired);
    assert!(matches!(second.interjection, InterjectStatus::Working(_)));
}

#[test]
fn a_step_without_an_aside_observes_like_observe() {
    let toks: Vec<i32> = (0..40).map(|i| i * 5 % 13).collect();
    let run = |fused: bool| {
        let backend = wordy();
        let mut lobe = Lobe::new(&backend, 4096, greedy()).unwrap();
        lobe.prime(&vec![Token(1)]).unwrap();
        let mut stats = Welford::new(2, 0);
        let steps: Vec<(u32, u32, u32)> = toks
            .iter()
            .map(|&t| {
                let s: Step = if fused {
                    lobe.step(Token(t), &mut stats, b(99.0), 2, 20, &nothing, &Float).unwrap().step
                } else {
                    lobe.observe(Token(t), &mut stats, b(99.0), 2, &Float).unwrap()
                };
                (s.surprisal.0, s.entropy.0, s.z.0)
            })
            .collect();
        (steps, lobe.position())
    };
    assert_eq!(run(false), run(true));
}

#[test]
fn a_long_fused_run_never_outgrows_the_context() {
    let backend = MockBackend::new(16);
    let cfg = LobeConfig { keep_recent: 64, ..greedy() };
    let mut lobe = Lobe::new(&backend, 4096, cfg).unwrap();
    lobe.prime(&vec![Token(1), Token(2)]).unwrap();
    let mut stats = Welford::new(2, 0);
    let mut asides = 0;
    for i in 0..9000 {
        let t = if i % 150 == 149 { 15 } else { i % 2 };
        let o = lobe.step(Token(t), &mut stats, b(3.0), 1, 20, &nothing, &Float).unwrap();
        if matches!(o.interjection, InterjectStatus::Done(_)) {
            asides += 1;
        }
        let (stream, scratch, _) = lobe.kv_debug();
        assert!(stream < 4096 && scratch < 4096);
    }
    assert!(lobe.resets() >= 2);
    assert!(asides >= 10);
}

#[test]
fn what_is_retrieved_goes_into_the_ask() {
    let asked = |found: Option<&'static str>| {
        let backend = wordy();
        let cfg = LobeConfig { prefill_chunk: 1, ..greedy() };
        let mut lobe = Lobe::new(&backend, 8192, cfg).unwrap();
        lobe.prime(&vec![Token(1)]).unwrap();
        let mut stats = Welford::new(2, 0);
        warm(&mut lobe, &mut stats);
        let queries = RefCell::new(Vec::new());
        let retrieve = |q: &str| {
            queries.borrow_mut().push(q.to_string());
            found.map(|s| s.to_string())
        };
        backend.inner.say(&[4]);
        lobe.step(Token(15), &mut stats, b(3.0), 5, 20, &retrieve, &Float).unwrap();
        assert_eq!(*queries.borrow(), [" t15"]);
        run_out(&mut lobe, &mut stats).0.len() + 1
    };
    let block = "\n\nIt brings back an earlier passage:\n\u{201c}Call me Ishmael.\u{201d}";
    assert_eq!(asked(Some("Call me Ishmael.")), asked(None) + block.len());
}

#[test]
fn only_a_fire_retrieves() {
    let backend = wordy();
    let mut lobe = Lobe::new(&backend, 4096, greedy()).unwrap();
    lobe.prime(&vec![Token(1)]).unwrap();
    let mut stats = Welford::new(2, 0);
    let called = RefCell::new(0);
    let retrieve = |_q: &str| {
        *called.borrow_mut() += 1;
        None
    };
    for i in 0..10 {
        lobe.step(Token(i % 2), &mut stats, b(9.0), 1, 20, &retrieve, &Float).unwrap();
    }
    assert_eq!(*called.borrow(), 0);
}

// ---------------------------------------------------------------------------------------------
// Showing an aside
// ---------------------------------------------------------------------------------------------

#[test]
fn a_repeat_is_abandoned_before_any_of_it_is_shown() {
    let backend = wordy();
    let cfg = LobeConfig { dedup: b(0.5), ..greedy() };
    let mut lobe = Lobe::new(&backend, 4096, cfg).unwrap();
    lobe.record_interjection("The whale sounds.");
    let (mut pending, mut revealed) = (None, false);
    let mut tick = |lobe: &mut Lobe<Wordy>, s: InterjectStatus| {
        let r = lobe.advance_reveal(Some(s), &mut pending, &mut revealed).unwrap();
        (r, pending.clone(), revealed)
    };
    assert_eq!(tick(&mut lobe, InterjectStatus::Started), (None, Some(String::new()), false));
    assert_eq!(
        tick(&mut lobe, InterjectStatus::Working("The".to_string())),
        (None, Some(String::new()), false)
    );
    assert_eq!(
        tick(&mut lobe, InterjectStatus::Working("The whale".to_string())),
        (None, None, false)
    );
}

#[test]
fn a_novel_aside_is_shown_from_its_opening_on_and_settles() {
    let backend = wordy();
    let cfg = LobeConfig { dedup: b(0.5), ..greedy() };
    let mut lobe = Lobe::new(&backend, 4096, cfg).unwrap();
    lobe.record_interjection("The whale sounds.");
    let (mut pending, mut revealed) = (None, false);
    let mut tick = |lobe: &mut Lobe<Wordy>, s: Option<InterjectStatus>| {
        let r = lobe.advance_reveal(s, &mut pending, &mut revealed).unwrap();
        (r, pending.clone(), revealed)
    };
    let working = |s: &str| Some(InterjectStatus::Working(s.to_string()));
    tick(&mut lobe, Some(InterjectStatus::Started));
    assert_eq!(tick(&mut lobe, working("A")), (None, Some(String::new()), false));
    assert_eq!(tick(&mut lobe, working("A sea")), (None, Some("A sea".to_string()), true));
    assert_eq!(tick(&mut lobe, None), (None, Some("A sea".to_string()), true));
    assert_eq!(
        tick(&mut lobe, Some(InterjectStatus::Done(" A sea turns. ".to_string()))),
        (Some("A sea turns.".to_string()), None, false)
    );
    // It is remembered: the same opening is a repeat from now on.
    assert!(lobe.interjection_doomed("A sea"));
}

#[test]
fn with_the_filter_off_everything_is_shown_at_once() {
    let backend = wordy();
    let mut lobe = Lobe::new(&backend, 4096, greedy()).unwrap();
    lobe.record_interjection("The whale sounds.");
    let (mut pending, mut revealed) = (None, false);
    let s = Some(InterjectStatus::Working("The".to_string()));
    lobe.advance_reveal(s, &mut pending, &mut revealed).unwrap();
    assert_eq!((pending, revealed), (Some("The".to_string()), true));
}

#[test]
fn a_blank_aside_does_not_settle() {
    let backend = wordy();
    let mut lobe = Lobe::new(&backend, 4096, greedy()).unwrap();
    let (mut pending, mut revealed) = (Some(String::new()), true);
    let s = Some(InterjectStatus::Done("  \n".to_string()));
    assert_eq!(lobe.advance_reveal(s, &mut pending, &mut revealed).unwrap(), None);
    assert_eq!((pending, revealed), (None, false));
}

// ---------------------------------------------------------------------------------------------
// Novelty
// ---------------------------------------------------------------------------------------------

#[test]
fn openings_are_two_plain_words() {
    assert_eq!(opening("  The \u{201c}Whale\u{201d}, rises", 2), "the whale");
    assert_eq!(opening("— Ahab!", 2), "ahab");
    assert_eq!(opening("", 2), "");
    assert_eq!(opening("A b c", 0), "");
}

#[test]
fn a_repeat_is_recognised_by_its_opening_or_by_its_shingles() {
    let mut m = InterjectionMemory::default();
    m.set_dedup(b(0.5));
    m.record("The structure is a catalog of mundane things");
    assert!(!m.is_novel("The structure, again", &Float));
    assert!(!m.is_novel("Again: the structure is a catalog of mundane things", &Float));
    assert!(m.is_novel("Ahab walks the deck at night", &Float));
    m.set_dedup(b(0.0));
    assert!(m.is_novel("The structure, again", &Float));
}

#[test]
fn only_the_latest_asides_are_remembered() {
    let mut m = InterjectionMemory::default();
    for i in 0..9 {
        m.record(&format!("  aside {i} "));
    }
    m.record("   ");
    assert_eq!(m.recent(2), ["aside 8", "aside 7"]);
    assert_eq!(m.recent(99).len(), 6);
}

#[test]
fn the_ask_shows_what_was_said() {
    let asked = |novelty_mode: NoveltyMode, ask_mode: AskMode| {
        let backend = MockBackend::new(64);
        let cfg = LobeConfig { novelty_mode, ask_mode, ..greedy() };
        let mut lobe = Lobe::new(&backend, 8192, cfg).unwrap();
        lobe.prime(&vec![Token(1)]).unwrap();
        lobe.record_interjection("One.");
        lobe.record_interjection("Two.");
        lobe.record_interjection("Three.");
        lobe.interject_begin("x", 4, None).unwrap();
        lobe.interject_step(&Float).unwrap();
        (lobe.session.seq_pos_max(GEN_SEQ) - lobe.position() + 1) as usize
    };
    let off = asked(NoveltyMode::Off, AskMode::Passage);
    let block = "\n\nYou recently said:\n- Three.\n- Two.".len();
    let fresh = " — but find a fresh angle, not one you've already made".len();
    let form = " — but vary your rhythm and how you begin, not just the subject".len();
    assert_eq!(asked(NoveltyMode::Fresh, AskMode::Passage), off + block + fresh);
    assert_eq!(asked(NoveltyMode::Form, AskMode::Passage), off + block + form);
    assert_ne!(asked(NoveltyMode::Off, AskMode::Continuous), off);
}

// ---------------------------------------------------------------------------------------------
// Looking things up
// ---------------------------------------------------------------------------------------------

#[test]
fn a_call_is_read_out_of_what_the_model_wrote() {
    let raw = "It nags at me. <|tool_call>call:search{source:<|\"|>RAG<|\"|>,query:<|\"|> white whale <|\"|>}<tool_call|>";
    let o = parse_rag_output(raw);
    assert_eq!(o.thought, "It nags at me.");
    let d = o.directive.unwrap();
    assert_eq!(d.source, Source::Rag);
    assert_eq!(d.query, "white whale");
    assert!(o.retrieved.is_none() && o.response.is_none());
}

#[test]
fn a_call_without_a_source_looks_into_the_session() {
    let o = parse_rag_output("<|tool_call>call:search{query:<|\"|>Ahab<|\"|>}");
    assert_eq!(o.directive.unwrap().source, Source::Mem);
    assert_eq!(o.thought, "");
}

#[test]
fn without_a_query_there_is_no_call() {
    let o = parse_rag_output("Just a thought. <|tool_call>call:search{source:<|\"|>rag<|\"|>}");
    assert_eq!(o.thought, "Just a thought.");
    assert!(o.directive.is_none());
    let plain = parse_rag_output("  Nothing to look up.  ");
    assert_eq!(plain.thought, "Nothing to look up.");
    assert!(plain.directive.is_none());
}

/// A backend that speaks whole texts, one token each.
struct Speaker {
    inner: MockBackend,
}

const LINES: [&str; 4] = [
    "Hm. ",
    "<|tool_call>call:search{source:<|\"|>rag<|\"|>,query:<|\"|>whale<|\"|>}<tool_call|>",
    " So it was the whale.",
    "<turn|>",
];

impl Backend for Speaker {
    type Session<'a>
        = MockSession<'a>
    where
        Self: 'a;
    fn load(_path: &str, _gpu_layers: u32, _verbose: bool) -> Result<Self, String> {
        Err("not loaded from a file".to_string())
    }
    fn n_vocab(&self) -> usize {
        self.inner.n_vocab()
    }
    fn tokenize(&self, text: &str, add_bos: bool) -> Result<Vec<Token>, String> {
        self.inner.tokenize(text, add_bos)
    }
    fn detok(&self, token: Token, _mode: Detok) -> String {
        LINES.get(token.0 as usize).map(|s| s.to_string()).unwrap_or_default()
    }
    fn is_eog(&self, _token: Token) -> bool {
        false
    }
    fn special_token(&self, text: &str) -> Option<Token> {
        LINES.iter().position(|p| *p == text).map(|i| Token(i as i32))
    }
    fn session(&self, cfg: SessionConfig) -> Result<MockSession<'_>, String> {
        self.inner.session(cfg)
    }
}

#[test]
fn a_search_is_answered_inside_the_turn() {
    let backend = Speaker { inner: MockBackend::new(8) };
    let mut lobe = Lobe::new(&backend, 8192, greedy()).unwrap();
    lobe.prime(&vec![Token(7)]).unwrap();
    // The ask predicts the thought, the thought the call; the answer predicts the reply, and the
    // reply the end of the turn.
    backend.inner.say(&[0, 1, 3, 2, 3]);
    let asked = RefCell::new(Vec::new());
    let o = lobe
        .rag("whale", 40, &|s: Source, q: &str| {
            asked.borrow_mut().push((s, q.to_string()));
            Some("Call me Ishmael.".to_string())
        })
        .unwrap();
    assert_eq!(o.thought, "Hm.");
    assert_eq!(o.retrieved.as_deref(), Some("Call me Ishmael."));
    assert_eq!(o.response.as_deref(), Some("So it was the whale."));
    assert_eq!(*asked.borrow(), [(Source::Rag, "whale".to_string())]);
    assert_eq!(lobe.session.seq_pos_max(GEN_SEQ), -1);
    assert_eq!(lobe.position(), 1);
}

#[test]
fn a_search_that_finds_nothing_ends_the_pass() {
    let backend = Speaker { inner: MockBackend::new(8) };
    let mut lobe = Lobe::new(&backend, 8192, greedy()).unwrap();
    backend.inner.say(&[0, 1, 3, 2, 3]);
    let o = lobe.rag("whale", 40, &|_s: Source, _q: &str| None).unwrap();
    assert_eq!(o.directive.unwrap().query, "whale");
    assert!(o.retrieved.is_none() && o.response.is_none());
}

// ---------------------------------------------------------------------------------------------
// Sampling and shaping
// ---------------------------------------------------------------------------------------------

#[test]
fn the_greedy_choice_is_the_first_of_the_highest() {
    assert_eq!(argmax(&vec![b(1.0), b(3.0), b(3.0)]), Token(1));
    assert_eq!(argmax(&vec![b(f32::NAN), b(-2.0)]), Token(1));
    assert_eq!(argmax(&vec![b(f32::NEG_INFINITY)]), Token(0));
    assert_eq!(argmax(&Vec::new()), Token(0));
}

#[test]
fn the_random_stream_is_xorshift() {
    let mut state: u64 = 0x9e37_79b9_7f4a_7c15;
    let mut x = state;
    x ^= x << 13;
    x ^= x >> 7;
    x ^= x << 17;
    let unit = next_unit_f32(&mut state);
    assert_eq!(state, x);
    assert_eq!(f(unit), ((x >> 40) as f32) / ((1u32 << 24) as f32));
    for _ in 0..1000 {
        let u = f(next_unit_f32(&mut state));
        assert!((0.0..1.0).contains(&u));
    }
}

#[test]
fn sampling_is_greedy_without_a_temperature() {
    let row = vec![b(0.0), b(2.0), b(1.0)];
    let mut rng = 9;
    assert_eq!(sample_topp(&row, b(0.0), b(0.9), &mut rng, &Float), Token(1));
    assert_eq!(rng, 9);
    // A nucleus that holds one token leaves no choice, but draws.
    assert_eq!(sample_topp(&row, b(1.0), b(0.01), &mut rng, &Float), Token(1));
    assert_ne!(rng, 9);
}

#[test]
fn sampling_stays_in_the_nucleus() {
    // At temperature 1 the shares are about 0.09, 0.67 and 0.24.
    let row = vec![b(0.0), b(2.0), b(1.0)];
    let mut rng = 9;
    let mut seen = [0; 3];
    for _ in 0..400 {
        let t = sample_topp(&row, b(1.0), b(0.9), &mut rng, &Float);
        seen[t.0 as usize] += 1;
    }
    // Two tokens come to nine tenths; the third is never chosen.
    assert_eq!(seen[0], 0);
    assert!(seen[1] > 200 && seen[2] > 50);
    let mut wide = [0; 3];
    for _ in 0..400 {
        wide[sample_topp(&row, b(1.0), b(1.0), &mut rng, &Float).0 as usize] += 1;
    }
    assert!(wide[0] > 0);
    // The draw goes by the running sums: the first number of this stream is about 0.0000005.
    let mut low = 1;
    assert_eq!(sample_topp(&row, b(1.0), b(1.0), &mut low, &Float), Token(1));
}

#[test]
fn spans_are_cut_at_words() {
    assert_eq!(word_aligned("MOLOGY of whales"), " of whales");
    assert_eq!(word_aligned(" of whales"), " of whales");
    assert_eq!(word_aligned("MOLOGY"), "MOLOGY");
    assert_eq!(word_aligned(""), "");
    assert_eq!(trim_snippet("call me Ishmael", 10), "call me");
    assert_eq!(trim_snippet("call me", 10), "call me");
    assert_eq!(trim_snippet("callmeIshmael", 6), "callme");
    // A character is never split.
    assert_eq!(trim_snippet("ééé", 3), "é");
}

#[test]
fn sentences_end_under_closing_marks() {
    assert!(ends_sentence("the void.\u{201d} "));
    assert!(ends_sentence("it *insists.*"));
    assert!(ends_sentence("what?"));
    assert!(ends_sentence("and so…"));
    assert!(!ends_sentence("the void"));
    assert!(!ends_sentence("the void,\u{201d}"));
    assert!(!ends_sentence(""));
}

#[test]
fn a_distribution_in_brief() {
    let backend = MockBackend::new(4);
    let lobe = Lobe::new(&backend, 2048, LobeConfig::default()).unwrap();
    let row = vec![b(1.0), b(3.0), b(2.0), b(0.0)];
    let d = lobe.logits_debug(&row, 2, &Float);
    assert_eq!(d.n_vocab, 4);
    assert_eq!(f(d.max_logit), 3.0);
    assert_eq!(d.argmax_id, 1);
    assert_eq!(d.argmax_tok, "t1");
    let ids: Vec<usize> = d.topk.iter().map(|t| t.id).collect();
    assert_eq!(ids, [1, 2]);
    assert_eq!(f(d.topk[1].logit), 2.0);
    assert_eq!(d.topk[1].tok, "t2");
    let empty = lobe.logits_debug(&Vec::new(), 2, &Float);
    assert_eq!((empty.n_vocab, empty.argmax_id, empty.topk.len()), (0, 0, 0));
    assert_eq!(f(empty.max_logit), f32::NEG_INFINITY);
}

// ---------------------------------------------------------------------------------------------
// Parts
// ---------------------------------------------------------------------------------------------

#[test]
fn the_window_keeps_the_latest_tokens() {
    let mut w = StreamWindow::default();
    w.set_eviction(EvictMode::Reset, 2);
    assert_eq!(w.begin_prime(vec![Token(9)], 10), None);
    for t in [1, 2, 3] {
        w.push_id(Token(t));
    }
    assert_eq!(w.window_len(), 2);
    assert_eq!(w.recent_ids(), [Token(2), Token(3)]);
    assert_eq!(w.replay_tokens(), [Token(9), Token(2), Token(3)]);
    assert_eq!(w.full_ids(), [Token(9), Token(1), Token(2), Token(3)]);
    w.mark_rolled();
    assert_eq!(w.resets(), 1);
    assert_eq!(w.full_ids(), [Token(9), Token(2), Token(3)]);
    assert!(w.tick_settle());
    for _ in 1..RESET_SETTLE {
        assert!(w.tick_settle());
    }
    assert!(!w.tick_settle());
}

#[test]
fn priming_a_window_reports_a_clamp() {
    let mut w = StreamWindow::default();
    w.set_eviction(EvictMode::Reset, 100);
    assert_eq!(w.begin_prime(vec![Token(9)], 10), Some(100));
    assert_eq!(w.keep_recent, 10);
}

#[test]
fn the_two_baselines_take_values_in_their_own_way() {
    let mut global = Welford::new(0, 0);
    for x in [1.0f32, 2.0, 3.0, 4.0] {
        global.update(b(x), &Float);
    }
    assert_eq!(f(global.mean()), 2.5);
    assert_eq!(f(global.m2), 5.0);
    assert_eq!(f(global.var_ewma), 0.0);
    assert!(global.warm());
    let mut recent = Welford::new(4, 3);
    recent.update(b(4.0), &Float);
    // A window of three weighs the latest value by one half.
    assert_eq!(f(recent.mean()), 2.0);
    assert_eq!(f(recent.var_ewma), 4.0);
    assert_eq!(f(recent.m2), 0.0);
    assert_eq!(recent.warmup(), 4);
    assert!(!recent.warm());
}

#[test]
fn numbers_are_ordered_as_floats_are() {
    let xs = [
        f32::NEG_INFINITY,
        -2.5,
        -1.0e-40,
        -0.0,
        0.0,
        1.0e-40,
        1.0,
        3.75,
        f32::INFINITY,
        f32::NAN,
        -f32::NAN,
    ];
    for x in xs {
        assert_eq!(b(x).nan(), x.is_nan());
        for y in xs {
            assert_eq!(b(x).lt(b(y)), x < y, "{x} < {y}");
            assert_eq!(b(x).le(b(y)), x <= y, "{x} <= {y}");
            let keys = b(x).total_key() < b(y).total_key();
            assert_eq!(keys, x.total_cmp(&y).is_lt(), "{x} before {y}");
        }
    }
}

#[test]
fn candle_never_loads() {
    let e = CandleBackend::load("model", 0, false).err().unwrap();
    assert_eq!(
        e,
        "Candle backend: gemma-4 forward pass not implemented yet (see CANDLE_DESIGN.md)"
    );
}

// ---------------------------------------------------------------------------------------------
// Starting up
// ---------------------------------------------------------------------------------------------

fn plain_options() -> Options {
    Options {
        signal: Signal::Surprisal,
        identifiers_only: false,
        evict: EvictMode::Reset,
        keep_recent: 64,
        interject_mode: InterjectMode::Context,
        ask_mode: AskMode::Passage,
        novelty: NoveltyMode::Fresh,
        interject_temp: b(0.6),
        interject_top_p: b(0.95),
        interject_max: 80,
        prefill_chunk: 8,
        refractory: 0,
        dedup: b(0.0),
        debug_topk: 64,
        debug_full_logits: false,
        deterministic: true,
        no_interject: false,
        no_frame: true,
        no_rag: true,
        no_scene: true,
        preamble: "Be brief.".to_string(),
        preamble_file: None,
        rag_corpus: None,
        rag_embed_model: None,
        input: String::new(),
        mode: Mode::Headless,
        granularity: Granularity::Line,
    }
}

#[test]
fn an_observer_starts_behind_its_framed_preamble() {
    let backend = MockBackend::new(64);
    let framed = "<|turn>system\nBe brief.<turn|>\n<|turn>model\n";
    let (lobe, shortened) = open_observer(&backend, 4096, &plain_options(), None, 1).unwrap();
    assert_eq!(lobe.position() as usize, framed.len());
    assert_eq!(lobe.window.replay_tokens(), backend.tokenize(framed, true).unwrap());
    assert_eq!(lobe.last_logits.len(), 64);
    assert_eq!(shortened, None);
    let persona = Some(" You are Werner. ");
    let o = Options { interject_mode: InterjectMode::Snippet, ..plain_options() };
    let (lobe, _) = open_observer(&backend, 4096, &o, persona, 1).unwrap();
    assert_eq!(lobe.position() as usize, "You are Werner.".len());
}

#[test]
fn a_start_can_fail_and_can_shorten_the_window() {
    let mut backend = MockBackend::new(64);
    let o = Options { keep_recent: 4096, ..plain_options() };
    assert_eq!(open_observer(&backend, 1024, &o, None, 1).unwrap().1, Some(4096));
    backend.fail_after(0);
    assert!(matches!(open_observer(&backend, 1024, &o, None, 1), Err(LobeError::Backend(_))));
    backend.refuses = true;
    assert!(matches!(open_observer(&backend, 1024, &o, None, 1), Err(LobeError::Backend(_))));
}

// ---------------------------------------------------------------------------------------------
// The pipe
// ---------------------------------------------------------------------------------------------

/// The names of events, with what matters about each.
fn names(events: &[Event]) -> Vec<String> {
    events
        .iter()
        .map(|e| match e {
            Event::Trigger { trigger, with_expected, .. } => {
                format!("trigger {} {}", trigger.stream_index, with_expected)
            },
            Event::Interjection { text, trigger_token, fused, .. } => {
                format!("aside {:?} {:?} {}", text, trigger_token, fused)
            },
            Event::Step { stream_index, token, .. } => format!("step {stream_index} {token}"),
            Event::Retrieval { source, query, snippet, .. } => {
                format!("search {source:?} {query} {snippet:?}")
            },
        })
        .collect()
}

#[test]
fn a_fire_is_written_before_what_follows_it() {
    let backend = Speaker { inner: MockBackend::new(8) };
    let mut lobe = Lobe::new(&backend, 8192, greedy()).unwrap();
    lobe.prime(&vec![Token(7)]).unwrap();
    let mut stats = Welford::new(2, 0);
    let mut out = Vec::new();
    let found = |_s: Source, _q: &str| Some("Call me Ishmael.".to_string());
    let mut feed = |lobe: &mut Lobe<Speaker>, t: i32, out: &mut Vec<Event>| {
        process_observe_token(
            lobe, Token(t), &mut stats, b(3.0), 2, Signal::Surprisal, Some(4), true, true, &found,
            &Float, out,
        )
        .unwrap()
    };
    for t in [0, 1, 0, 1, 0, 1] {
        assert!(!feed(&mut lobe, t, &mut out));
    }
    assert_eq!(out.len(), 6);
    out.clear();
    // The aside is one line, then the search pass speaks.
    backend.inner.say(&[2, 3, 0, 1, 3, 2, 3]);
    assert!(feed(&mut lobe, 7, &mut out));
    assert_eq!(
        names(&out),
        [
            "trigger 6 true",
            "aside \"So it was the whale.\" Some(\"\") false",
            "aside \"Hm.\" Some(\"\") false",
            "search Rag whale Some(\"Call me Ishmael.\")",
            "aside \"So it was the whale.\" Some(\"\") false",
            "step 6 ",
        ]
    );
}

#[test]
fn a_repeat_is_remembered_but_not_written() {
    let backend = Speaker { inner: MockBackend::new(8) };
    let cfg = LobeConfig { dedup: b(0.5), ..greedy() };
    let mut lobe = Lobe::new(&backend, 8192, cfg).unwrap();
    lobe.prime(&vec![Token(7)]).unwrap();
    lobe.record_interjection("So it goes.");
    let mut stats = Welford::new(2, 0);
    let none = |_s: Source, _q: &str| None;
    let mut out = Vec::new();
    for t in [0, 1, 0, 1, 0, 1, 7] {
        if t == 7 {
            backend.inner.say(&[2, 3]);
        }
        process_observe_token(
            &mut lobe, Token(t), &mut stats, b(3.0), 2, Signal::Surprisal, Some(4), false, false,
            &none, &Float, &mut out,
        )
        .unwrap();
    }
    assert_eq!(names(&out), ["trigger 6 true"]);
    assert_eq!(lobe.memory.recent(1), ["So it was the whale."]);
}

#[test]
fn what_was_written_before_a_failure_stays() {
    let backend = Speaker { inner: MockBackend::new(8) };
    let mut lobe = Lobe::new(&backend, 8192, greedy()).unwrap();
    lobe.prime(&vec![Token(7)]).unwrap();
    let mut stats = Welford::new(2, 0);
    let none = |_s: Source, _q: &str| None;
    let mut out = Vec::new();
    for t in [0, 1, 0, 1, 0, 1] {
        process_observe_token(
            &mut lobe, Token(t), &mut stats, b(3.0), 2, Signal::Surprisal, Some(4), false, false,
            &none, &Float, &mut out,
        )
        .unwrap();
    }
    backend.inner.fail_after(1);
    let r = process_observe_token(
        &mut lobe, Token(7), &mut stats, b(3.0), 2, Signal::Surprisal, Some(4), false, false,
        &none, &Float, &mut out,
    );
    assert!(matches!(r, Err(LobeError::Backend(_))));
    assert_eq!(names(&out), ["trigger 6 true"]);
}

#[test]
fn the_fused_path_writes_the_aside_when_it_is_done() {
    let backend = wordy();
    let cfg = LobeConfig { prefill_chunk: 1000, ..greedy() };
    let mut lobe = Lobe::new(&backend, 8192, cfg).unwrap();
    lobe.prime(&vec![Token(1)]).unwrap();
    let mut stats = Welford::new(2, 0);
    let mut out = Vec::new();
    backend.inner.say(&[0, 1, 2, 3, 4]);
    for t in [0, 1, 0, 1, 0, 1, 15, 0, 0, 0, 0, 0, 0] {
        process_fused_token(
            &mut lobe, Token(t), &mut stats, b(3.0), 2, Some(20), Signal::Surprisal, false, &nothing,
            &Float, &mut out,
        )
        .unwrap();
    }
    assert_eq!(names(&out), ["trigger 6 false", "aside \"The whale rises.\" None true"]);
    assert_eq!(lobe.memory.recent(1), ["The whale rises."]);
}

#[test]
fn the_fused_path_abandons_a_repeat() {
    let backend = wordy();
    let cfg = LobeConfig { prefill_chunk: 1000, dedup: b(0.5), ..greedy() };
    let mut lobe = Lobe::new(&backend, 8192, cfg).unwrap();
    lobe.prime(&vec![Token(1)]).unwrap();
    lobe.record_interjection("The whale sounds.");
    let mut stats = Welford::new(2, 0);
    let mut out = Vec::new();
    backend.inner.say(&[0, 1, 2, 3, 4]);
    for t in [0, 1, 0, 1, 0, 1, 15, 0, 0, 0, 0, 0, 0] {
        process_fused_token(
            &mut lobe, Token(t), &mut stats, b(3.0), 2, Some(20), Signal::Surprisal, false, &nothing,
            &Float, &mut out,
        )
        .unwrap();
    }
    assert_eq!(names(&out), ["trigger 6 false"]);
    assert!(!lobe.kv_debug().2);
}

#[test]
fn the_fused_path_writes_every_step_and_no_aside_where_so_wanted() {
    let backend = wordy();
    let mut lobe = Lobe::new(&backend, 8192, greedy()).unwrap();
    lobe.prime(&vec![Token(1)]).unwrap();
    let mut stats = Welford::new(2, 0);
    let mut out = Vec::new();
    let toks = [0, 1, 0, 1, 0, 1, 15, 0, 0];
    for t in toks {
        process_fused_token(
            &mut lobe, Token(t), &mut stats, b(3.0), 2, None, Signal::Surprisal, true, &nothing,
            &Float, &mut out,
        )
        .unwrap();
        assert!(!lobe.kv_debug().2);
    }
    let written = names(&out);
    let steps: Vec<_> = written.iter().filter(|s| s.starts_with("step")).collect();
    assert_eq!(steps.len(), toks.len());
    assert!(steps[6].starts_with("step 6 "));
    assert_eq!(written[6], "trigger 6 false");
    assert_eq!(written.len(), toks.len() + 1);
}

#[test]
fn the_fused_path_writes_the_step_last() {
    let backend = wordy();
    let cfg = LobeConfig { prefill_chunk: 1000, ..greedy() };
    let mut lobe = Lobe::new(&backend, 8192, cfg).unwrap();
    lobe.prime(&vec![Token(1)]).unwrap();
    let mut stats = Welford::new(2, 0);
    let mut out = Vec::new();
    backend.inner.say(&[0, 1, 2, 3, 4]);
    for t in [0, 1, 0, 1, 0, 1, 15, 0, 0, 0, 0, 0, 0] {
        process_fused_token(
            &mut lobe, Token(t), &mut stats, b(3.0), 2, Some(20), Signal::Surprisal, true, &nothing,
            &Float, &mut out,
        )
        .unwrap();
        assert!(names(&out).last().unwrap().starts_with("step"));
    }
    assert_eq!(out.len(), 13 + 2);
}

#[test]
fn reports_come_at_their_own_pace() {
    let mut m = Meter::default();
    for _ in 1..FUSED_STATS_EVERY {
        assert_eq!(m.tick(true, true), None);
    }
    assert_eq!(m.tick(true, true), Some(FUSED_STATS_EVERY));
    assert_eq!((m.tok_count, m.window_count), (FUSED_STATS_EVERY, 0));
    let mut quiet = Meter { tok_count: STATS_EVERY, window_count: STATS_EVERY };
    assert_eq!(quiet.tick(false, false), None);
    assert_eq!(quiet.tick(false, true), Some(STATS_EVERY + 2));
}

// ---------------------------------------------------------------------------------------------
// The worker and the instrument
// ---------------------------------------------------------------------------------------------

#[test]
fn the_worker_reports_each_token() {
    let backend = wordy();
    let cfg = LobeConfig { prefill_chunk: 1000, ..greedy() };
    let mut lobe = Lobe::new(&backend, 8192, cfg).unwrap();
    lobe.prime(&vec![Token(1)]).unwrap();
    let mut stats = Welford::new(2, 0);
    let (mut pending, mut revealed) = (None, false);
    let mut out = Vec::new();
    backend.inner.say(&[0, 1, 3, 4]);
    for t in [0, 1, 0, 1, 0, 1, 15, 6, 6, 6, 6] {
        take_token(
            &mut lobe, Token(t), &mut stats, b(3.0), 2, Some(20), &nothing, &mut pending,
            &mut revealed, &Float, &mut out,
        )
        .unwrap();
    }
    let told: Vec<String> = out[12..]
        .iter()
        .map(|e| match e {
            UiEvent::Token(t) => format!("token{t}"),
            UiEvent::Pending(p) => format!("{p:?}"),
            UiEvent::Settled(s) => format!("settled {s}"),
            UiEvent::Ready | UiEvent::Done => panic!("not about a token"),
        })
        .collect();
    assert_eq!(
        told,
        [
            "token t15",
            "Some(\"\")",
            "token sea",
            "Some(\"\")",
            "token sea",
            "Some(\"The\")",
            "token sea",
            "Some(\"The whale\")",
            "token sea",
            "settled The whale.",
            "None",
        ]
    );
}

#[test]
fn without_asides_the_worker_only_observes() {
    let backend = wordy();
    let mut lobe = Lobe::new(&backend, 8192, greedy()).unwrap();
    lobe.prime(&vec![Token(1)]).unwrap();
    let mut stats = Welford::new(2, 0);
    let (mut pending, mut revealed) = (None, false);
    let mut out = Vec::new();
    for t in [0, 1, 0, 1, 0, 1, 15] {
        take_token(
            &mut lobe, Token(t), &mut stats, b(3.0), 2, None, &nothing, &mut pending,
            &mut revealed, &Float, &mut out,
        )
        .unwrap();
    }
    assert_eq!(out.len(), 14);
    assert!(!lobe.kv_debug().2);
}

#[test]
fn controls_are_obeyed_in_order() {
    let mut p = Pace { paused: false, z: b(3.0) };
    let queue = vec![
        Control::Pause(true),
        Control::AdjustZ(b(0.25)),
        Control::AdjustZ(b(20.0)),
        Control::Pause(false),
    ];
    assert!(p.obey(&queue, true, &Float));
    assert_eq!((p.paused, f(p.z)), (false, 12.0));
    assert!(!p.obey(&vec![Control::AdjustZ(b(-99.0)), Control::Quit, Control::Pause(true)], true, &Float));
    assert_eq!((p.paused, f(p.z)), (false, 0.0));
    assert!(!p.obey(&Vec::new(), false, &Float));
}

#[test]
fn the_stream_is_taken_token_by_token() {
    let feed = vec![Token(4), Token(5)];
    let mut at = 0;
    let go = Pace { paused: false, z: b(3.0) };
    let stop = Pace { paused: true, ..go };
    assert_eq!(stop.next_move(&feed, &mut at), Move::Wait);
    assert_eq!(go.next_move(&feed, &mut at), Move::Take(Token(4)));
    assert_eq!(go.next_move(&feed, &mut at), Move::Take(Token(5)));
    assert_eq!(stop.next_move(&feed, &mut at), Move::Wait);
    assert_eq!(go.next_move(&feed, &mut at), Move::Finish);
    assert_eq!(at, 2);
}

#[test]
fn keys_move_the_instrument() {
    let mut p = Pace { paused: false, z: b(11.9) };
    assert!(press(&mut p, Action::TogglePause, &Float));
    assert!(p.paused);
    assert!(press(&mut p, Action::Raise, &Float));
    assert_eq!(f(p.z), 12.0);
    assert!(press(&mut p, Action::Lower, &Float));
    assert_eq!(f(p.z), 11.75);
    assert!(press(&mut p, Action::Nothing, &Float));
    assert!(!press(&mut p, Action::Quit, &Float));
    assert_eq!(f(p.z), 11.75);
}

#[test]
fn the_panels_take_in_each_token() {
    let backend = wordy();
    let cfg = LobeConfig { prefill_chunk: 1000, ..greedy() };
    let mut lobe = Lobe::new(&backend, 8192, cfg).unwrap();
    lobe.prime(&vec![Token(1)]).unwrap();
    let mut stats = Welford::new(2, 0);
    let mut panels = Panels::default();
    backend.inner.say(&[0, 1, 3, 4]);
    for t in [0, 1, 0, 1, 0, 1, 15, 6, 6] {
        panels
            .take_token(&mut lobe, Token(t), &mut stats, b(3.0), 2, Some(20), &nothing, &Float)
            .unwrap();
    }
    assert_eq!(panels.shaded.len(), 9);
    assert_eq!(panels.shaded[7].text, " sea");
    assert_eq!(panels.triggers.len(), 1);
    let z: f32 = (0..16).map(|i| (-(i as f32)).exp()).sum();
    assert_eq!(panels.spark[6], ((z.ln() + 15.0) * 10.0) as u64);
    let lines: Vec<(String, bool)> =
        panels.side_lines().into_iter().map(|l| (l.text, l.live)).collect();
    assert_eq!(lines, [("💭 The▋".to_string(), true)]);
    for t in [6, 6] {
        panels
            .take_token(&mut lobe, Token(t), &mut stats, b(3.0), 2, Some(20), &nothing, &Float)
            .unwrap();
    }
    assert_eq!(panels.interjections, [">> The whale."]);
    assert_eq!(panels.pending, None);
}

#[test]
fn the_panels_stay_bounded() {
    let backend = MockBackend::new(8);
    let mut lobe = Lobe::new(&backend, 2048, LobeConfig::default()).unwrap();
    let mut stats = Welford::new(2, 0);
    let mut panels = Panels::default();
    for i in 0..4001 {
        panels
            .take_token(&mut lobe, Token(i % 5), &mut stats, b(0.1), 1, None, &nothing, &Float)
            .unwrap();
    }
    assert_eq!(panels.shaded.len(), 3001);
    assert_eq!(panels.spark.len(), 120);
    assert_eq!(panels.triggers.len(), 64);
    assert_eq!(panels.transcript_start(), 3001 - 1200);
}

// ---------------------------------------------------------------------------------------------
// Laws on values
// ---------------------------------------------------------------------------------------------

#[test]
fn openings_nest() {
    let s = "  The White-Whale, — it  rises!";
    assert_eq!(opening(s, 0), "");
    assert_eq!(opening(s, 1), "the");
    assert_eq!(opening(s, 3), "the whitewhale it");
    assert_eq!(opening(s, 9), "the whitewhale it rises");
    for k in 0..6 {
        let short: Vec<String> = opening(s, k).split(' ').map(String::from).collect();
        let long = opening(s, 6);
        if k > 0 {
            let first: Vec<&str> = long.split(' ').take(k).collect();
            assert_eq!(short, first);
        }
    }
}

#[test]
fn reading_undoes_writing() {
    for s in ["", " a snippet. ", "value:<|\"|", "\"quoted\" <|", "|>"] {
        let written = rag_tool_response(s);
        assert_eq!(extract_tool_arg(&written, "value"), Some(s));
    }
    assert_eq!(extract_tool_arg("call{query:<|\"|>open", "query"), None);
    assert_eq!(extract_tool_arg("call{}", "query"), None);
}

#[test]
fn shut_gates_leave_later_draws_equal() {
    let soft = || {
        let mut f = Firing::default();
        f.set_softness(b(1.0));
        f.seed_rng(7);
        f
    };
    let mut plain = soft();
    let mut delayed = soft();
    for _ in 0..5 {
        assert!(!delayed.decide("t", b(9.0), b(3.0), false, false, &Float).0);
        assert!(!delayed.decide("t", b(9.0), b(3.0), true, true, &Float).0);
    }
    assert_eq!(delayed.fire_rng, plain.fire_rng);
    for z in [2.0, 3.0, 3.5, 4.0] {
        let a = plain.decide("t", b(z), b(3.0), true, false, &Float);
        assert_eq!(a, delayed.decide("t", b(z), b(3.0), true, false, &Float));
    }
}

#[test]
fn decidable_stays_decidable() {
    let mut m = InterjectionMemory::default();
    m.set_dedup(b(0.5));
    let text = "The wh— ale rises, and sinks.";
    let mut known = false;
    for (i, _) in text.char_indices() {
        let now = m.decidable(&text[..i]);
        assert!(now || !known);
        known = now;
    }
    assert!(known);
    assert!(!m.decidable("The"));
    assert!(m.decidable("The w"));
}

#[test]
fn a_primed_window_holds_what_it_has_room_for() {
    for (keep, room) in [(5, 3), (3, 5), (4, 1), (4, 0)] {
        let mut w = StreamWindow::default();
        w.set_eviction(EvictMode::Reset, keep);
        let clamped = w.begin_prime(vec![Token(9), Token(8)], room);
        assert_eq!(clamped, if keep > room { Some(keep) } else { None });
        assert_eq!(w.full_ids(), [Token(9), Token(8)]);
        assert_eq!(w.window_len(), 0);
        for k in 1..8 {
            w.push_id(Token(k));
            assert_eq!(w.window_len(), (k as usize).min(keep).min(room));
        }
        assert_eq!(w.resets(), 0);
    }
}

#[test]
fn a_whole_reply_is_bounded() {
    let backend = MockBackend::new(8);
    let mut lobe = Lobe::new(&backend, 8192, greedy()).unwrap();
    lobe.prime(&vec![Token(1)]).unwrap();
    lobe.interject_begin("x", 3, None).unwrap();
    let mut pumps = 1;
    while !matches!(lobe.interject_step(&Float).unwrap(), InterjectStep::Done(_)) {
        pumps += 1;
    }
    // Nothing here ends a sentence or a turn, so the slack is used up.
    assert_eq!(pumps, 3 + INTERJECT_SENTENCE_SLACK + 2);
}

#[test]
fn a_reply_stops_at_the_first_chance_and_grows_in_prefixes() {
    let backend = wordy();
    let mut lobe = Lobe::new(&backend, 8192, greedy()).unwrap();
    lobe.prime(&vec![Token(1)]).unwrap();
    for (script, max, said) in [
        // A turn mark ends it, and leaves no text.
        (vec![0, 1, 5, 2], 20, "The whale"),
        // Past the length asked for the end of a sentence does; before it, none.
        (vec![0, 3, 1, 2, 3, 6], 3, "The. whale rises."),
        // Right at the length asked for, too.
        (vec![0, 1, 3, 2, 3], 3, "The whale."),
        (vec![4], 3, ""),
    ] {
        backend.inner.say(&script);
        lobe.interject_begin("x", max, None).unwrap();
        let mut shown: Vec<String> = Vec::new();
        let text = loop {
            match lobe.interject_step(&Float).unwrap() {
                InterjectStep::Working(s) => shown.push(s),
                InterjectStep::Done(s) => break s,
                InterjectStep::Idle => panic!("the aside vanished"),
            }
        };
        assert_eq!(text, said);
        for pair in shown.windows(2) {
            assert!(pair[1].starts_with(&pair[0]));
        }
        assert!(text.starts_with(shown.last().unwrap()));
        assert_eq!(lobe.kv_debug().1, -1);
        assert!(matches!(lobe.interject_step(&Float).unwrap(), InterjectStep::Idle));
        backend.inner.script.borrow_mut().clear();
    }
}

#[test]
fn the_same_state_fires_and_samples_the_same() {
    let mut one = Firing::default();
    one.set_softness(b(1.0));
    one.seed_rng(0xfeed);
    let mut two = one;
    let mut fires = 0;
    for i in 0..200 {
        let z = b((i % 7) as f32);
        let r = one.decide("t", z, b(3.0), true, false, &Float);
        assert_eq!(r, two.decide("t", z, b(3.0), true, false, &Float));
        assert_eq!(one, two);
        fires += r.0 as u32;
    }
    assert!(fires > 20 && fires < 180);
    let row = vec![b(0.5), b(2.0), b(1.0), b(2.0), b(-1.0)];
    let (mut x, mut y) = (77, 77);
    for _ in 0..200 {
        let t = sample_topp(&row, b(0.8), b(0.9), &mut x, &Float);
        assert_eq!(t, sample_topp(&row.clone(), b(0.8), b(0.9), &mut y, &Float));
        assert_eq!(x, y);
    }
}

#[test]
fn a_fused_run_is_reproducible() {
    let run = || {
        let backend = wordy();
        let cfg = LobeConfig { prefill_chunk: 50, seed: Some(3), ..LobeConfig::default() };
        let mut lobe = Lobe::new(&backend, 8192, cfg).unwrap();
        lobe.prime(&vec![Token(1)]).unwrap();
        let mut stats = Welford::new(4, 0);
        let mut said = Vec::new();
        for i in 0..300 {
            let found = |q: &str| Some(format!("about{q}"));
            let o = lobe
                .step(Token(i * 7 % 13), &mut stats, b(1.0), 2, 10, &found, &Float)
                .unwrap();
            said.push((o.step.z.0, o.step.fired, format!("{:?}", o.interjection)));
        }
        (said, stats, lobe.gen.rng, lobe.window.full_ids())
    };
    let first = run();
    assert!(first.0.iter().any(|s| s.2.starts_with("Done")));
    assert_eq!(first, run());
}

#[test]
fn the_debug_settings_are_those_of_the_options_and_stay() {
    let backend = wordy();
    let o = Options {
        debug_topk: 7,
        debug_full_logits: true,
        prefill_chunk: 1000,
        dedup: b(0.5),
        ..plain_options()
    };
    let (mut lobe, _) = open_observer(&backend, 8192, &o, None, 1).unwrap();
    let kept = lobe.debug;
    assert_eq!((kept.topk, kept.full_logits), (7, true));
    lobe.record_interjection("The whale sounds.");
    assert_eq!(lobe.debug, kept);
    lobe.abort_interjection().unwrap();
    assert_eq!(lobe.debug, kept);
    let (mut pending, mut revealed) = (None, false);
    let doomed = Some(InterjectStatus::Working("The whale".to_string()));
    lobe.advance_reveal(doomed, &mut pending, &mut revealed).unwrap();
    assert_eq!(lobe.debug, kept);
    let mut stats = Welford::new(2, 0);
    let mut out = Vec::new();
    for t in [0, 1, 0, 1, 0, 1, 15, 0] {
        process_fused_token(
            &mut lobe, Token(t), &mut stats, b(3.0), 2, Some(20), Signal::Surprisal, false, &nothing,
            &Float, &mut out,
        )
        .unwrap();
    }
    assert_eq!(lobe.debug, kept);
}
