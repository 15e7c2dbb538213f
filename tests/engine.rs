use kbnf::engine::{Config, CreateEngineError, Engine, EngineConfig};
use kbnf::engine_base::{AcceptTokenError, AcceptTokenResult, EngineBase, EngineBaseError};
use kbnf::engine_base::EngineConfig as BaseConfig;
use kbnf::grammar::{CreateGrammarError, Fsa, FsaStatus, Grammar, Node};
use kbnf::vocabulary::Vocabulary;

const A1: u32 = 0;
const B1: u32 = 1;
const L1: u32 = 2;
const R1: u32 = 3;
const N1: u32 = 4;
const BB: u32 = 5;
const CC: u32 = 6;
const NNX: u32 = 7;
const AB: u32 = 8;
const EMPTY: u32 = 9;
const UNKNOWN: u32 = 10;
const C1: u32 = 11;
const D1: u32 = 12;

fn vocab() -> Vocabulary {
    let tokens: Vec<Option<Vec<u8>>> = vec![
        Some(b"a".to_vec()),
        Some(b"b".to_vec()),
        Some(b"{".to_vec()),
        Some(b"}".to_vec()),
        Some(b"\n".to_vec()),
        Some(b"bb".to_vec()),
        Some(b"cc".to_vec()),
        Some(b"\n\nx".to_vec()),
        Some(b"ab".to_vec()),
        Some(Vec::new()),
        None,
        Some(b"c".to_vec()),
        Some(b"d".to_vec()),
    ];
    Vocabulary::new(tokens).unwrap()
}

fn literal_grammar(rules: Vec<Vec<Vec<Node>>>, terminals: Vec<&[u8]>) -> Grammar {
    Grammar::new(
        rules,
        terminals.into_iter().map(|t| t.to_vec()).collect(),
        Vec::new(),
        Vec::new(),
        0,
    )
    .unwrap()
}

/// A table over three states: `next(s, b)` and `status(s)` given as closures.
fn table(n: u32, start: u32, next: impl Fn(u32, u8) -> u32, status: impl Fn(u32) -> FsaStatus) -> Fsa {
    let mut transitions = Vec::new();
    for s in 0..n {
        for b in 0..=255u8 {
            transitions.push(next(s, b));
        }
    }
    Fsa { transitions, statuses: (0..n).map(status).collect(), start }
}

/// `.+`: state 0 has read nothing, 1 a match, 2 a newline.
fn dot_plus() -> Fsa {
    table(
        3,
        0,
        |s, b| if s == 2 || b == b'\n' { 2 } else { 1 },
        |s| match s {
            0 => FsaStatus::InProgress,
            1 => FsaStatus::Accept,
            _ => FsaStatus::Reject,
        },
    )
}

/// Unanchored search for two newlines: state 2 has seen them.
fn two_newlines() -> Fsa {
    table(
        3,
        0,
        |s, b| match (s, b) {
            (2, _) => 2,
            (1, b'\n') => 2,
            (0, b'\n') => 1,
            _ => 0,
        },
        |s| if s == 2 { FsaStatus::Accept } else { FsaStatus::InProgress },
    )
}

fn engine(g: Grammar) -> Engine {
    Engine::new(g, vocab()).unwrap()
}

fn aaa() -> Engine {
    engine(literal_grammar(vec![vec![vec![Node::Terminal(0)]]], vec![b"aaa"]))
}

fn allowed(e: &Engine) -> Vec<usize> {
    e.allowed_token_ids_from_last_computation().ones().collect()
}

#[test]
fn minimal_case() {
    let mut engine = aaa();
    assert!(engine.try_accept_new_token(B1) == Err(AcceptTokenError::Rejected));
    engine.compute_allowed_token_ids();
    assert_eq!(engine.try_accept_new_token(A1), Ok(AcceptTokenResult::Ongoing));
    engine.compute_allowed_token_ids();
    assert_eq!(engine.try_accept_new_token(A1), Ok(AcceptTokenResult::Ongoing));
    engine.compute_allowed_token_ids();
    assert_eq!(engine.try_accept_new_token(A1), Ok(AcceptTokenResult::Finished));
    engine.compute_allowed_token_ids();
    assert!(engine.is_finished());
}

#[test]
fn rejected_token_is_rejected() {
    let mut engine = aaa();
    assert_eq!(engine.try_accept_new_token(B1), Err(AcceptTokenError::Rejected));
    assert!(!engine.is_finished());
}

#[test]
fn literal_steps_until_finished() {
    let mut engine = aaa();
    assert_eq!(engine.try_accept_new_token(A1), Ok(AcceptTokenResult::Ongoing));
    assert_eq!(engine.try_accept_new_token(A1), Ok(AcceptTokenResult::Ongoing));
    assert_eq!(engine.try_accept_new_token(A1), Ok(AcceptTokenResult::Finished));
    assert_eq!(engine.try_accept_new_token(A1), Err(AcceptTokenError::Finished));
}

#[test]
fn allowed_tokens_follow_the_literal() {
    let mut engine = aaa();
    engine.compute_allowed_token_ids();
    assert_eq!(allowed(&engine), vec![A1 as usize, EMPTY as usize]);
    assert_eq!(engine.try_accept_new_token(A1), Ok(AcceptTokenResult::Ongoing));
    engine.compute_allowed_token_ids();
    assert_eq!(allowed(&engine), vec![A1 as usize, EMPTY as usize]);
    assert_eq!(engine.try_accept_new_token(A1), Ok(AcceptTokenResult::Ongoing));
    assert_eq!(engine.try_accept_new_token(A1), Ok(AcceptTokenResult::Finished));
    engine.compute_allowed_token_ids();
    assert!(allowed(&engine).is_empty());
}

#[test]
fn allowed_set_agrees_with_accepting() {
    let mut engine = engine(literal_grammar(
        vec![vec![vec![Node::Terminal(0)], vec![Node::Terminal(1)]]],
        vec![b"ab", b"bb"],
    ));
    engine.compute_allowed_token_ids();
    let set = allowed(&engine);
    assert_eq!(set, vec![A1 as usize, B1 as usize, BB as usize, AB as usize, EMPTY as usize]);
    for id in 0..engine.vocab().get_vocab_size() as u32 {
        let mut probe = Engine::new(
            literal_grammar(
                vec![vec![vec![Node::Terminal(0)], vec![Node::Terminal(1)]]],
                vec![b"ab", b"bb"],
            ),
            vocab(),
        )
        .unwrap();
        let ok = probe.try_accept_new_token(id).is_ok();
        assert_eq!(ok, set.contains(&(id as usize)), "token {}", id);
    }
}

#[test]
fn computing_allowed_tokens_keeps_the_state() {
    let mut engine = aaa();
    assert_eq!(engine.try_accept_new_token(A1), Ok(AcceptTokenResult::Ongoing));
    engine.compute_allowed_token_ids();
    engine.compute_allowed_token_ids();
    assert_eq!(engine.try_accept_new_token(A1), Ok(AcceptTokenResult::Ongoing));
    assert_eq!(engine.try_accept_new_token(A1), Ok(AcceptTokenResult::Finished));
}

#[test]
fn left_recursion() {
    let g = literal_grammar(
        vec![vec![
            vec![Node::Terminal(0)],
            vec![Node::Nonterminal(0), Node::Terminal(0)],
        ]],
        vec![b"bb"],
    );
    let mut engine = engine(g);
    assert_eq!(engine.try_accept_new_token(BB), Ok(AcceptTokenResult::Finished));
}

#[test]
fn left_recursion_by_single_bytes() {
    let g = literal_grammar(
        vec![vec![
            vec![Node::Terminal(0)],
            vec![Node::Nonterminal(0), Node::Terminal(0)],
        ]],
        vec![b"bb"],
    );
    let mut engine = engine(g);
    assert_eq!(engine.try_accept_new_token(B1), Ok(AcceptTokenResult::Ongoing));
    assert_eq!(engine.try_accept_new_token(B1), Ok(AcceptTokenResult::Finished));
}

#[test]
fn right_recursion() {
    let g = literal_grammar(
        vec![vec![
            vec![Node::Terminal(0)],
            vec![Node::Terminal(0), Node::Nonterminal(0)],
        ]],
        vec![b"cc"],
    );
    let mut engine = engine(g);
    assert_eq!(engine.try_accept_new_token(CC), Ok(AcceptTokenResult::Finished));
}

#[test]
fn middle_recursion() {
    let g = literal_grammar(
        vec![vec![
            vec![Node::Terminal(0), Node::Terminal(1)],
            vec![Node::Terminal(0), Node::Nonterminal(0), Node::Terminal(1)],
        ]],
        vec![b"{", b"}"],
    );
    let mut engine = engine(g);
    for _ in 0..10 {
        assert_eq!(engine.try_accept_new_token(L1), Ok(AcceptTokenResult::Ongoing));
        engine.compute_allowed_token_ids();
    }
    for _ in 0..9 {
        assert_eq!(engine.try_accept_new_token(R1), Ok(AcceptTokenResult::Ongoing));
        engine.compute_allowed_token_ids();
    }
    assert_eq!(engine.try_accept_new_token(R1), Ok(AcceptTokenResult::Finished));
}

fn regex_then_newline() -> Grammar {
    Grammar::new(
        vec![vec![vec![Node::RegexString(0), Node::Terminal(0)]]],
        vec![b"\n".to_vec()],
        vec![dot_plus()],
        Vec::new(),
        0,
    )
    .unwrap()
}

#[test]
fn always_match_regex() {
    let mut engine = engine(regex_then_newline());
    for _ in 0..1 {
        for _ in 0..5 {
            assert_eq!(engine.try_accept_new_token(A1), Ok(AcceptTokenResult::Ongoing));
            engine.compute_allowed_token_ids();
        }
        assert_eq!(engine.try_accept_new_token(N1), Ok(AcceptTokenResult::Finished));
        engine.reset();
    }
}

#[test]
fn regex_allows_more_bytes_and_newline() {
    let mut engine = engine(regex_then_newline());
    engine.compute_allowed_token_ids();
    let first = allowed(&engine);
    assert!(first.contains(&(A1 as usize)));
    assert!(!first.contains(&(N1 as usize)));
    assert_eq!(engine.try_accept_new_token(AB), Ok(AcceptTokenResult::Ongoing));
    engine.compute_allowed_token_ids();
    let next = allowed(&engine);
    assert!(next.contains(&(A1 as usize)));
    assert!(next.contains(&(N1 as usize)));
    assert!(next.contains(&(AB as usize)));
}

#[test]
fn reset_starts_over() {
    let mut engine = aaa();
    assert_eq!(engine.try_accept_new_token(A1), Ok(AcceptTokenResult::Ongoing));
    engine.reset();
    assert!(!engine.is_finished());
    assert_eq!(engine.try_accept_new_token(A1), Ok(AcceptTokenResult::Ongoing));
    assert_eq!(engine.try_accept_new_token(A1), Ok(AcceptTokenResult::Ongoing));
    assert_eq!(engine.try_accept_new_token(A1), Ok(AcceptTokenResult::Finished));
}

fn except_then_terminator(reps: Option<u32>) -> Grammar {
    Grammar::new(
        vec![vec![vec![Node::Except(0, reps), Node::Terminal(0)]]],
        vec![b"\n\n".to_vec()],
        Vec::new(),
        vec![two_newlines()],
        0,
    )
    .unwrap()
}

#[test]
fn except_stops_at_the_terminator() {
    let mut engine = engine(except_then_terminator(None));
    assert_eq!(engine.try_accept_new_token(AB), Ok(AcceptTokenResult::Ongoing));
    assert_eq!(engine.try_accept_new_token(N1), Ok(AcceptTokenResult::Ongoing));
    assert_eq!(engine.try_accept_new_token(N1), Ok(AcceptTokenResult::Finished));
}

#[test]
fn except_rejects_bytes_after_the_terminator() {
    let mut engine = engine(except_then_terminator(None));
    assert_eq!(engine.try_accept_new_token(AB), Ok(AcceptTokenResult::Ongoing));
    assert_eq!(engine.try_accept_new_token(NNX), Err(AcceptTokenError::Rejected));
    assert_eq!(engine.try_accept_new_token(N1), Ok(AcceptTokenResult::Ongoing));
}

#[test]
fn except_with_repetition_bound() {
    let mut engine = engine(except_then_terminator(Some(1)));
    assert_eq!(engine.try_accept_new_token(AB), Ok(AcceptTokenResult::Ongoing));
    assert_eq!(engine.try_accept_new_token(A1), Err(AcceptTokenError::Rejected));
    let mut engine = Engine::new(except_then_terminator(Some(1)), vocab()).unwrap();
    assert_eq!(engine.try_accept_new_token(A1), Ok(AcceptTokenResult::Ongoing));
    assert_eq!(engine.try_accept_new_token(N1), Ok(AcceptTokenResult::Ongoing));
    assert_eq!(engine.try_accept_new_token(N1), Ok(AcceptTokenResult::Finished));
}

#[test]
fn unknown_and_empty_tokens() {
    let mut engine = aaa();
    assert_eq!(engine.try_accept_new_token(UNKNOWN), Err(AcceptTokenError::UnknownTokenId));
    assert_eq!(engine.try_accept_new_token(1000), Err(AcceptTokenError::UnknownTokenId));
    assert_eq!(engine.try_accept_new_token(EMPTY), Ok(AcceptTokenResult::Ongoing));
    assert_eq!(engine.try_accept_new_token(A1), Ok(AcceptTokenResult::Ongoing));
}

#[test]
fn empty_grammar_is_refused() {
    let g = Grammar::new(vec![vec![]], Vec::new(), Vec::new(), Vec::new(), 0).unwrap();
    assert!(matches!(Engine::new(g, vocab()), Err(CreateEngineError::EmptyGrammarError)));
}

#[test]
fn long_expected_output_is_refused() {
    let config = Config {
        engine_config: EngineConfig { cache_enabled: false, compaction_enabled: false },
        expected_output_length: u32::MAX as usize,
    };
    let g = literal_grammar(vec![vec![vec![Node::Terminal(0)]]], vec![b"aaa"]);
    assert!(matches!(Engine::with_config(g, vocab(), config), Err(CreateEngineError::InvalidInputError)));
}

#[test]
fn switches_do_not_change_the_allowed_set() {
    let mut sets = Vec::new();
    for (cache, compaction) in [(true, true), (false, false), (true, false)] {
        let config = Config {
            engine_config: EngineConfig { cache_enabled: cache, compaction_enabled: compaction },
            expected_output_length: 100,
        };
        let mut engine = Engine::with_config(regex_then_newline(), vocab(), config).unwrap();
        assert_eq!(engine.try_accept_new_token(A1), Ok(AcceptTokenResult::Ongoing));
        engine.compute_allowed_token_ids();
        sets.push(allowed(&engine));
    }
    assert_eq!(sets[0], sets[1]);
    assert_eq!(sets[0], sets[2]);
}

#[test]
fn repetition_too_large_is_refused() {
    let g = except_then_terminator(Some(u32::MAX));
    assert!(matches!(
        Engine::new(g, vocab()),
        Err(CreateEngineError::EngineBaseError(EngineBaseError::RepetitionInExceptedTooLarge(_, _)))
    ));
}

#[test]
fn excepted_too_large_is_refused() {
    let g = except_then_terminator(Some(1 << 31));
    assert!(matches!(
        Engine::new(g, vocab()),
        Err(CreateEngineError::EngineBaseError(EngineBaseError::ExceptedTooLarge(3, _)))
    ));
}

#[test]
fn grammar_errors() {
    let bad_start = Grammar::new(vec![vec![vec![Node::Terminal(0)]]], vec![b"a".to_vec()], Vec::new(), Vec::new(), 1);
    assert_eq!(bad_start.err(), Some(CreateGrammarError::InvalidStartNonterminal));
    let empty_production = Grammar::new(vec![vec![vec![]]], Vec::new(), Vec::new(), Vec::new(), 0);
    assert_eq!(empty_production.err(), Some(CreateGrammarError::EmptyProduction));
    let bad_node = Grammar::new(vec![vec![vec![Node::Nonterminal(3)]]], Vec::new(), Vec::new(), Vec::new(), 0);
    assert_eq!(bad_node.err(), Some(CreateGrammarError::InvalidNode));
    let empty_terminal = Grammar::new(vec![vec![vec![Node::Terminal(0)]]], vec![Vec::new()], Vec::new(), Vec::new(), 0);
    assert_eq!(empty_terminal.err(), Some(CreateGrammarError::EmptyTerminal));
    let bad_table = Fsa { transitions: vec![5; 256], statuses: vec![FsaStatus::Accept], start: 0 };
    let bad_fsa = Grammar::new(vec![vec![vec![Node::RegexString(0)]]], Vec::new(), vec![bad_table], Vec::new(), 0);
    assert_eq!(bad_fsa.err(), Some(CreateGrammarError::InvalidAutomaton));
}

#[test]
fn first_bytes_of_an_automaton() {
    let set = dot_plus().compute_first_bytes();
    assert!(set.contains(b'a' as usize));
    assert!(!set.contains(b'\n' as usize));
    assert_eq!(set.count_ones(..), 255);
}

#[test]
fn vocabulary_groups_by_first_byte() {
    let v = vocab();
    assert_eq!(v.get_vocab_size(), 13);
    assert_eq!(v.get_token_ids_from_first_byte(b'b'), &vec![B1, BB]);
    assert_eq!(v.get_token_ids_from_first_byte(b'\n'), &vec![N1, NNX]);
    assert_eq!(v.get_empty_token_ids(), &vec![EMPTY]);
    assert_eq!(v.get_token_from_token_id(CC), Some(&b"cc".to_vec()));
    assert_eq!(v.get_token_from_token_id(UNKNOWN), None);
}

#[test]
fn long_right_recursion() {
    let g = literal_grammar(
        vec![vec![
            vec![Node::Terminal(0), Node::Nonterminal(0)],
            vec![Node::Terminal(1)],
        ]],
        vec![b"c", b"d"],
    );
    let mut engine = engine(g);
    for _ in 0..1000 {
        assert_eq!(engine.try_accept_new_token(C1), Ok(AcceptTokenResult::Ongoing));
    }
    engine.compute_allowed_token_ids();
    assert_eq!(allowed(&engine), vec![CC as usize, EMPTY as usize, C1 as usize, D1 as usize]);
    assert_eq!(engine.try_accept_new_token(D1), Ok(AcceptTokenResult::Finished));
}

#[test]
fn feed_byte_and_revert() {
    let g = literal_grammar(vec![vec![vec![Node::Terminal(0)]]], vec![b"ab"]);
    let config = BaseConfig { cache_enabled: true, compaction_enabled: true };
    let mut base = EngineBase::new(vocab(), g, config).unwrap();
    let snapshot = base.snapshot_len();
    assert_eq!(snapshot, 1);
    assert_eq!(base.feed_byte(b'b'), Err(AcceptTokenError::Rejected));
    assert_eq!(base.snapshot_len(), 1);
    assert_eq!(base.feed_byte(b'a'), Ok(AcceptTokenResult::Ongoing));
    assert_eq!(base.snapshot_len(), 2);
    assert_eq!(base.feed_byte(b'b'), Ok(AcceptTokenResult::Finished));
    assert!(base.is_finished());
    assert_eq!(base.feed_byte(b'b'), Err(AcceptTokenError::Rejected));
    base.revert_to(snapshot);
    assert!(!base.is_finished());
    assert_eq!(base.snapshot_len(), 1);
    assert_eq!(base.try_accept_new_token(AB), Ok(AcceptTokenResult::Finished));
}

#[test]
fn engine_base_accessors() {
    let g = literal_grammar(vec![vec![vec![Node::Terminal(0)]]], vec![b"aaa"]);
    let config = BaseConfig { cache_enabled: false, compaction_enabled: true };
    let base = EngineBase::new(vocab(), g, config).unwrap();
    assert_eq!(base.get_config().compaction_enabled, true);
    assert_eq!(base.get_grammar().get_terminal(0), &b"aaa".to_vec());
}

#[test]
fn allowed_set_agrees_with_accepting_on_a_clone() {
    let mut engine = engine(regex_then_newline());
    assert_eq!(engine.try_accept_new_token(A1), Ok(AcceptTokenResult::Ongoing));
    engine.compute_allowed_token_ids();
    let set = allowed(&engine);
    for id in 0..engine.vocab().get_vocab_size() as u32 {
        let mut probe = engine.clone();
        let ok = probe.try_accept_new_token(id).is_ok();
        assert_eq!(ok, set.contains(&(id as usize)), "token {}", id);
    }
    assert_eq!(engine.try_accept_new_token(N1), Ok(AcceptTokenResult::Finished));
}
