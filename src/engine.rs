//! The main engine: an [`EngineBase`] behind the checks of its inputs.
use crate::engine_base::{
    accepted_chain, fed_chain, refused_chain, AcceptTokenError, AcceptTokenResult, EngineBase, EngineBaseError,
};
use crate::grammar::Grammar;
use crate::model::{fits_state_words, has_predictions, initial_justified};
use crate::vocabulary::Vocabulary;
use fixedbitset::FixedBitSet;
use vstd::prelude::*;

verus! {

/// The specific config of the [`Engine`].
#[derive(Clone, Copy, Debug, PartialEq, Eq, Structural)]
pub struct EngineConfig {
    /// Whether computed token sets may be cached by chart content.
    pub cache_enabled: bool,
    /// Whether right-linear tails may be compacted.
    pub compaction_enabled: bool,
}

/// The config of an [`Engine`]: the engine's switches and a hint of how long
/// the output may get.
#[derive(Clone, Copy, Debug, PartialEq, Eq, Structural)]
pub struct Config {
    pub engine_config: EngineConfig,
    /// The longest output, in bytes, that the engine is expected to see.
    pub expected_output_length: usize,
}

impl Config {
    /// Both switches on, and the longest output that 32-bit Earley set
    /// indices allow.
    pub fn new() -> (r: Config)
        ensures
            r.engine_config.cache_enabled,
            r.engine_config.compaction_enabled,
            r.expected_output_length == u32::MAX - 1,
    {
        Config {
            engine_config: EngineConfig { cache_enabled: true, compaction_enabled: true },
            expected_output_length: (u32::MAX - 1) as usize,
        }
    }
}

/// The errors of [`EngineBase::new`]: an object of the grammar that the 32-bit
/// sub-state word cannot encode.
pub type EngineError = EngineBaseError;

/// Represents the error type for the [`Engine`] creation.
#[derive(Clone, Copy, Debug, PartialEq, Eq, Structural)]
pub enum CreateEngineError {
    /// A wrapper for the [`EngineBaseError`] error type.
    EngineBaseError(EngineBaseError),
    /// The grammar has no production at all.
    EmptyGrammarError,
    /// The config asks for more Earley sets than 32-bit indices address.
    InvalidInputError,
}

/// The main engine, over a grammar and a vocabulary.
#[derive(Clone)]
pub struct Engine {
    base: EngineBase,
}

impl Engine {
    pub closed spec fn base(&self) -> EngineBase {
        self.base
    }

    pub open spec fn wf(&self) -> bool {
        self.base().wf()
    }

    /// Creates an engine with the default [`Config`].
    pub fn new(grammar: Grammar, vocabulary: Vocabulary) -> (r: Result<Engine, CreateEngineError>)
        requires
            grammar.wf(),
            vocabulary.wf(),
        ensures
            r is Ok <==> (!grammar_is_empty(grammar) && fits_state_words(grammar)),
            r matches Ok(e) ==> e.wf() && e.base().spec_grammar() == grammar
                && e.base().spec_vocabulary() == vocabulary && e.base().chart().len() == 1
                && !e.base().spec_is_finished() && e.base().allowed() == Set::<int>::empty()
                && has_predictions(grammar, e.base().chart()[0], grammar.spec_start(), 0)
                && initial_justified(grammar, e.base().chart()[0], grammar.spec_start()),
    {
        Self::with_config(grammar, vocabulary, Config::new())
    }

    /// Creates an engine with `config`.
    ///
    /// # Errors
    ///
    /// `EmptyGrammarError` when the grammar has no production, `InvalidInputError`
    /// when the expected output length reaches `u32::MAX`, and the engine's own
    /// error when the grammar does not fit its sub-state words.
    pub fn with_config(grammar: Grammar, vocabulary: Vocabulary, config: Config) -> (r: Result<
        Engine,
        CreateEngineError,
    >)
        requires
            grammar.wf(),
            vocabulary.wf(),
        ensures
            grammar_is_empty(grammar) ==> r == Err::<Engine, _>(
                CreateEngineError::EmptyGrammarError,
            ),
            !grammar_is_empty(grammar) && config.expected_output_length >= u32::MAX ==> r == Err::<
                Engine,
                _,
            >(CreateEngineError::InvalidInputError),
            r is Ok <==> (!grammar_is_empty(grammar) && config.expected_output_length < u32::MAX
                && fits_state_words(grammar)),
            r matches Ok(e) ==> e.wf() && e.base().spec_grammar() == grammar
                && e.base().spec_vocabulary() == vocabulary && e.base().chart().len() == 1
                && !e.base().spec_is_finished() && e.base().allowed() == Set::<int>::empty()
                && has_predictions(grammar, e.base().chart()[0], grammar.spec_start(), 0)
                && initial_justified(grammar, e.base().chart()[0], grammar.spec_start())
                && e.base().spec_config().cache_enabled == config.engine_config.cache_enabled
                && e.base().spec_config().compaction_enabled == config.engine_config.compaction_enabled,
    {
        if grammar.is_empty() {
            return Err(CreateEngineError::EmptyGrammarError);
        }
        if config.expected_output_length >= u32::MAX as usize {
            return Err(CreateEngineError::InvalidInputError);
        }
        let engine_config = crate::engine_base::EngineConfig {
            cache_enabled: config.engine_config.cache_enabled,
            compaction_enabled: config.engine_config.compaction_enabled,
        };
        match EngineBase::new(vocabulary, grammar, engine_config) {
            Ok(base) => Ok(Engine { base }),
            Err(e) => Err(CreateEngineError::EngineBaseError(e)),
        }
    }

    /// See [`EngineBase::try_accept_new_token`].
    pub fn try_accept_new_token(&mut self, token_id: u32) -> (r: Result<
        AcceptTokenResult,
        AcceptTokenError,
    >)
        requires
            old(self).wf(),
        ensures
            final(self).wf(),
            final(self).base().spec_grammar() == old(self).base().spec_grammar(),
            final(self).base().spec_vocabulary() == old(self).base().spec_vocabulary(),
            old(self).base().spec_is_finished() ==> r == Err::<AcceptTokenResult, _>(
                AcceptTokenError::Finished,
            ),
            !old(self).base().spec_is_finished() && old(self).base().spec_vocabulary().token(
                token_id as int,
            ) is None ==> r == Err::<AcceptTokenResult, _>(AcceptTokenError::UnknownTokenId),
            !old(self).base().spec_is_finished() && old(self).base().spec_vocabulary().token(
                token_id as int,
            ) is Some ==> (r is Ok || r == Err::<AcceptTokenResult, _>(AcceptTokenError::Rejected)),
            r is Err ==> final(self).base().same_chart(&old(self).base()),
            final(self).base().allowed() == old(self).base().allowed(),
            r is Ok ==> final(self).base().chart().len() == old(self).base().chart().len()
                + old(self).base().spec_vocabulary().token(token_id as int)->0.len()
                && final(self).base().keeps_prefix(&old(self).base(), old(self).base().chart().len() as int),
            r is Ok ==> (r == Ok::<_, AcceptTokenError>(AcceptTokenResult::Finished)
                <==> final(self).base().spec_is_finished()),
            ({
                let t = old(self).base().spec_vocabulary().token(token_id as int);
                !old(self).base().spec_is_finished() && t is Some && t->0.len() == 1 ==> (r is Ok
                    <==> old(self).base().accepts_first(t->0[0]))
            }),
            r is Ok ==> exists|states: Seq<EngineBase>|
                #[trigger] fed_chain(states, old(self).base().spec_vocabulary().token(token_id as int)->0)
                    && states[0] == old(self).base() && states.last() == final(self).base(),
            ({
                let t = old(self).base().spec_vocabulary().token(token_id as int);
                r == Err::<AcceptTokenResult, _>(AcceptTokenError::Rejected) && t is Some ==> exists|
                    states: Seq<EngineBase>,
                |
                    #[trigger] fed_chain(states, t->0.take(states.len() - 1)) && states.len() <= t->0.len()
                        && states[0] == old(self).base() && !states.last().accepts_first(
                        t->0[states.len() - 1],
                    )
            }),
    {
        self.base.try_accept_new_token(token_id)
    }

    /// See [`EngineBase::compute_allowed_token_ids`].
    pub fn compute_allowed_token_ids(&mut self)
        requires
            old(self).wf(),
        ensures
            final(self).wf(),
            final(self).base().same_chart(&old(self).base()),
            final(self).base().spec_grammar() == old(self).base().spec_grammar(),
            final(self).base().spec_vocabulary() == old(self).base().spec_vocabulary(),
            forall|t: int|
                #![trigger old(self).base().spec_vocabulary().token(t)]
                old(self).base().spec_vocabulary().token(t) is Some
                    && old(self).base().spec_vocabulary().token(t)->0.len() == 1
                    ==> (final(self).base().allowed().contains(t) <==> old(self).base().accepts_first(
                    old(self).base().spec_vocabulary().token(t)->0[0],
                )),
            forall|t: int| #[trigger]
                final(self).base().allowed().contains(t) ==> old(self).base().spec_vocabulary().token(t) is Some,
            forall|t: int|
                #![trigger old(self).base().spec_vocabulary().token(t)]
                old(self).base().spec_vocabulary().token(t) is Some
                    && old(self).base().spec_vocabulary().token(t)->0.len() == 0 ==> (
                final(self).base().allowed().contains(t) <==> !old(self).base().spec_is_finished()),
            forall|t: int|
                #![trigger old(self).base().spec_vocabulary().token(t)]
                old(self).base().spec_vocabulary().token(t) is Some
                    && old(self).base().spec_vocabulary().token(t)->0.len() > 0 ==> (
                final(self).base().allowed().contains(t) ==> accepted_chain(
                    old(self).base(),
                    old(self).base().spec_vocabulary().token(t)->0,
                )) && (final(self).base().allowed().contains(t) || refused_chain(
                    old(self).base(),
                    old(self).base().spec_vocabulary().token(t)->0,
                )),
    {
        self.base.compute_allowed_token_ids()
    }

    /// The token ids found by the last [`Self::compute_allowed_token_ids`].
    pub fn allowed_token_ids_from_last_computation(&self) -> (r: &FixedBitSet)
        ensures
            crate::bitset::bitset_ones(*r) == self.base().allowed(),
    {
        self.base.get_allowed_token_ids_from_last_computation()
    }

    /// Whether the start nonterminal has been derived from the whole input.
    pub fn is_finished(&self) -> (r: bool)
        requires
            self.wf(),
        ensures
            r == self.base().spec_is_finished(),
    {
        self.base.is_finished()
    }

    /// Returns to the start of the input.
    pub fn reset(&mut self)
        requires
            old(self).wf(),
        ensures
            final(self).wf(),
            final(self).base().chart().len() == 1,
            !final(self).base().spec_is_finished(),
            final(self).base().spec_grammar() == old(self).base().spec_grammar(),
            final(self).base().spec_vocabulary() == old(self).base().spec_vocabulary(),
            final(self).base().allowed() == Set::<int>::empty(),
            has_predictions(
                final(self).base().spec_grammar(),
                final(self).base().chart()[0],
                final(self).base().spec_grammar().spec_start(),
                0,
            ),
            initial_justified(
                final(self).base().spec_grammar(),
                final(self).base().chart()[0],
                final(self).base().spec_grammar().spec_start(),
            ),
    {
        self.base.reset()
    }

    /// The vocabulary.
    pub fn vocab(&self) -> (r: &Vocabulary)
        ensures
            *r == self.base().spec_vocabulary(),
    {
        self.base.get_vocab()
    }
}

/// Every nonterminal of `g` is without productions.
pub open spec fn grammar_is_empty(g: Grammar) -> bool {
    forall|n: int| 0 <= n < g.nonterminal_count() ==> g.production_count(n) == 0
}

} // verus!
