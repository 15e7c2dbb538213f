//! The Earley recognizer: Predict, Scan and Complete over the Earley sets, with
//! a postdot index, Leo's right-recursion shortcut, reversible steps, and the
//! probe that computes which tokens may come next.
use crate::bitset::{bitset_len, bitset_ones};
use crate::earley_sets::{earley_rows, EarleyItem, EarleySets};
use crate::grammar::{node_valid, Fsa, FsaStatus, Grammar, Node};
use crate::vocabulary::Vocabulary;
use crate::model::{
    PostDotItems,
    STATE_WORD_RANGE,
    advanced_item,
    completes_on_advance,
    fits_state_words,
    has_predictions,
    init_state,
    item_node,
    item_wf,
    keys_wf,
    lemma_prefix_contains,
    lemma_prefix_has_predictions,
    lemma_scan_done_grows,
    lemma_u64_set_bounded,
    leo_wf,
    leo_chain,
    leo_reaches,
    leo_end,
    leo_ends_within,
    memo_maps,
    chain_memoized,
    excepted_limit,
    excepted_error,
    completion_fixpoint,
    key_code,
    completed_step,
    completion_follows,
    keys_closed,
    lemma_leo_iter_closed,
    lemma_keys_closed_push_empty,
    predicted_at,
    item_justified,
    rows_justified,
    advanced_by_completion,
    advanced_by_some,
    scanned_from,
    entry_lists,
    index_exact,
    indexes_below,
    lemma_index_step,
    initial_justified,
    item_hint,
    excepted_dfa_state,
    row_hints,
    lemma_rows_justified_grow,
    lemma_rows_justified_drop_column,
    lemma_completed_into_drop_column,
    leo_iter,
    leo_next,
    memo_valid,
    completed_into,
    lemma_completed_into_grows,
    lemma_leo_iter_frame,
    lemma_memo_valid_frame,
    lemma_leo_iter_shift,
    node_fits,
    postdot_entry_wf,
    postdot_item_wf,
    postdot_wf,
    predict_closed,
    predicted_item,
    row_scans,
    rows_closed,
    rows_wf,
    scan_advances,
    scan_done,
    scan_moved,
    scanned_into,
    scans,
    state_wf,
    viable_bytes,
    with_state,
};
use fixedbitset::FixedBitSet;
use std::collections::HashMap;
use std::collections::HashSet;
use vstd::prelude::*;
use vstd::set_lib::{lemma_int_range, lemma_len_subset, set_int_range};

verus! {

broadcast use vstd::std_specs::hash::group_hash_axioms;

/// The specific config of the engine. Both switches only trade memory and time;
/// what is accepted does not depend on them.
#[derive(Clone, Copy, Debug, PartialEq, Eq, Structural)]
pub struct EngineConfig {
    /// Whether computed token sets may be cached by chart content.
    pub cache_enabled: bool,
    /// Whether right-linear tails may be compacted.
    pub compaction_enabled: bool,
}

/// The error type for errors in engine creation: an object of the grammar that
/// the 32-bit sub-state word cannot encode. Each carries the size found and the
/// largest size allowed.
#[derive(Clone, Copy, Debug, PartialEq, Eq, Structural)]
pub enum EngineBaseError {
    TerminalTooLong(usize, usize),
    RegexTooLarge(usize, usize),
    ExceptedTooLarge(usize, usize),
    RepetitionInExceptedTooLarge(usize, usize),
}

/// What accepting a token led to.
#[derive(Clone, Copy, Debug, PartialEq, Eq, Structural)]
pub enum AcceptTokenResult {
    /// The input is a proper prefix of the language so far.
    Ongoing,
    /// The start nonterminal has been derived from the whole input.
    Finished,
}

/// Why a token was not accepted.
#[derive(Clone, Copy, Debug, PartialEq, Eq, Structural)]
pub enum AcceptTokenError {
    /// The input was already finished.
    Finished,
    /// The vocabulary has no token with this id.
    UnknownTokenId,
    /// The token's bytes cannot extend any partial derivation.
    Rejected,
}

/// A copy of a vector of plain values.
fn copy_vec<T: Copy>(v: &Vec<T>) -> (r: Vec<T>)
    ensures
        r@ == v@,
{
    let mut r: Vec<T> = Vec::new();
    let mut i: usize = 0;
    while i < v.len()
        invariant
            i <= v@.len(),
            r@ == v@.take(i as int),
        decreases v@.len() - i,
    {
        r.push(v[i]);
        i = i + 1;
        assert(r@ =~= v@.take(i as int));
    }
    assert(v@.take(v@.len() as int) =~= v@);
    r
}

/// The length of the longest common prefix of `a` and `b`.
fn common_prefix_len(a: &Vec<u8>, b: &Vec<u8>) -> (r: usize)
    ensures
        r <= a@.len(),
        r <= b@.len(),
        forall|i: int| 0 <= i < r ==> a@[i] == b@[i],
        r < a@.len() && r < b@.len() ==> a@[r as int] != b@[r as int],
{
    let mut i: usize = 0;
    while i < a.len() && i < b.len() && a[i] == b[i]
        invariant
            i <= a@.len(),
            i <= b@.len(),
            forall|j: int| 0 <= j < i ==> a@[j] == b@[j],
        decreases a@.len() - i,
    {
        i = i + 1;
    }
    i
}

/// Adds to `set` every byte on which `fsa` steps from `s` to a state that does
/// not reject.
fn insert_viable_bytes(fsa: &Fsa, s: u32, set: &mut FixedBitSet)
    requires
        fsa.wf(),
        (s as int) < fsa.state_count(),
        bitset_len(*old(set)) == 256,
    ensures
        bitset_len(*final(set)) == 256,
        bitset_ones(*final(set)) == bitset_ones(*old(set)).union(viable_bytes(*fsa, s as int)),
{
    let mut b: usize = 0;
    while b < 256
        invariant
            fsa.wf(),
            (s as int) < fsa.state_count(),
            b <= 256,
            bitset_len(*set) == 256,
            bitset_ones(*set) == bitset_ones(*old(set)).union(
                viable_bytes(*fsa, s as int).intersect(Set::new(|x: int| 0 <= x < b)),
            ),
        decreases 256 - b,
    {
        let t = fsa.next_state(s, b as u8);
        assert(((b as int) as u8) == (b as u8));
        assert(viable_bytes(*fsa, s as int).contains(b as int) <==> fsa.spec_status(t as int)
            != FsaStatus::Reject);
        if fsa.status(t) != FsaStatus::Reject {
            set.insert(b);
        }
        assert(bitset_ones(*set) =~= bitset_ones(*old(set)).union(
            viable_bytes(*fsa, s as int).intersect(Set::new(|x: int| 0 <= x < b + 1)),
        ));
        b = b + 1;
    }
    assert(viable_bytes(*fsa, s as int).intersect(Set::new(|x: int| 0 <= x < 256)) =~= viable_bytes(
        *fsa,
        s as int,
    ));
}

/// Some item of `items` before `upto`, not completed by advancing, advances
/// to `x`.
pub open spec fn advanced_from_items(g: Grammar, items: Seq<EarleyItem>, upto: int, x: EarleyItem) -> bool {
    exists|m: int|
        0 <= m < upto && !completes_on_advance(g, #[trigger] items[m]) && x == advanced_item(g, items[m])
}

/// `states` feeds `bytes` one at a time: each state is what feeding the next
/// byte to the state before it gives.
pub open spec fn fed_chain(states: Seq<EngineBase>, bytes: Seq<u8>) -> bool {
    &&& states.len() == bytes.len() + 1
    &&& forall|i: int| 0 <= i < bytes.len() ==> #[trigger] states[i].byte_step(bytes[i], states[i + 1])
}

/// Feeding `bytes` one at a time from `start` accepts every one of them.
pub open spec fn accepted_chain(start: EngineBase, bytes: Seq<u8>) -> bool {
    exists|states: Seq<EngineBase>| #[trigger] fed_chain(states, bytes) && states[0] == start
}

/// Feeding `bytes` one at a time from `start` accepts a proper prefix of them
/// and then refuses the next byte.
pub open spec fn refused_chain(start: EngineBase, bytes: Seq<u8>) -> bool {
    exists|states: Seq<EngineBase>|
        #[trigger] fed_chain(states, bytes.take(states.len() - 1)) && 1 <= states.len() <= bytes.len()
            && states[0] == start && !states.last().accepts_first(bytes[states.len() - 1])
}

/// `a` and `b` hold the same chart, postdot index, flags, grammar and
/// vocabulary: all that a byte step reads.
pub open spec fn same_view(a: EngineBase, b: EngineBase) -> bool {
    &&& a.chart() == b.chart()
    &&& a.postdot() == b.postdot()
    &&& a.finished_flags() == b.finished_flags()
    &&& a.spec_grammar() == b.spec_grammar()
    &&& a.spec_vocabulary() == b.spec_vocabulary()
}

/// A byte step from a state is one from any state with the same view.
proof fn lemma_byte_step_view(a: EngineBase, a2: EngineBase, b: u8, next: EngineBase)
    requires
        same_view(a, a2),
        a.byte_step(b, next),
    ensures
        a2.byte_step(b, next),
{
    let g = a.spec_grammar();
    let done = choose|done: Set<(u32, u32)>|
        #[trigger] completed_step(
            g,
            a.postdot(),
            a.last_row(),
            b,
            done,
            next.last_row(),
            (g.spec_start(), 0u32),
            next.spec_is_finished(),
        ) && rows_justified(
            g,
            a.postdot(),
            a.last_row(),
            b,
            done,
            a.chart().len() as int,
            next.last_row(),
        );
    assert(completed_step(
        g,
        a2.postdot(),
        a2.last_row(),
        b,
        done,
        next.last_row(),
        (g.spec_start(), 0u32),
        next.spec_is_finished(),
    ));
}

/// A chain's first states feed the first bytes.
proof fn lemma_fed_chain_take(states: Seq<EngineBase>, bytes: Seq<u8>, n: int)
    requires
        fed_chain(states, bytes),
        0 <= n <= bytes.len(),
    ensures
        fed_chain(states.take(n + 1), bytes.take(n)),
{
    assert forall|i: int| 0 <= i < bytes.take(n).len() implies #[trigger] states.take(n + 1)[i].byte_step(
        bytes.take(n)[i],
        states.take(n + 1)[i + 1],
    ) by {
        assert(states[i].byte_step(bytes[i], states[i + 1]));
    }
}

/// Chains from a state are chains from any state with the same view.
proof fn lemma_chains_view(a: EngineBase, a2: EngineBase, bytes: Seq<u8>)
    requires
        same_view(a, a2),
    ensures
        accepted_chain(a, bytes) ==> accepted_chain(a2, bytes),
        refused_chain(a, bytes) ==> refused_chain(a2, bytes),
{
    if accepted_chain(a, bytes) {
        let st = choose|st: Seq<EngineBase>| #[trigger] fed_chain(st, bytes) && st[0] == a;
        let st2 = st.update(0, a2);
        assert forall|i: int| 0 <= i < bytes.len() implies #[trigger] st2[i].byte_step(bytes[i], st2[i + 1]) by {
            assert(st[i].byte_step(bytes[i], st[i + 1]));
            if i == 0 {
                lemma_byte_step_view(a, a2, bytes[0], st[1]);
            }
        }
        assert(fed_chain(st2, bytes));
    }
    if refused_chain(a, bytes) {
        let st = choose|st: Seq<EngineBase>|
            #[trigger] fed_chain(st, bytes.take(st.len() - 1)) && 1 <= st.len() <= bytes.len()
                && st[0] == a && !st.last().accepts_first(bytes[st.len() - 1]);
        let st2 = st.update(0, a2);
        let bs = bytes.take(st.len() - 1);
        assert forall|i: int| 0 <= i < bs.len() implies #[trigger] st2[i].byte_step(bs[i], st2[i + 1]) by {
            assert(st[i].byte_step(bs[i], st[i + 1]));
            if i == 0 {
                lemma_byte_step_view(a, a2, bs[0], st[1]);
            }
        }
        assert(fed_chain(st2, bytes.take(st2.len() - 1)));
        assert(!st2.last().accepts_first(bytes[st2.len() - 1]));
    }
}

/// The low-level engine: an Earley recognizer over a lowered grammar.
#[derive(Clone)]
pub struct EngineBase {
    vocabulary: Vocabulary,
    grammar: Grammar,
    allowed_first_bytes: FixedBitSet,
    allowed_token_ids: FixedBitSet,
    earley_sets: EarleySets,
    postdot_items: Vec<HashMap<u32, PostDotItems>>,
    finished: Vec<bool>,
    leo_items: Vec<HashMap<u32, (u32, u32)>>,
    already_predicted_nonterminals: FixedBitSet,
    config: EngineConfig,
}

impl EngineBase {
    pub closed spec fn spec_grammar(&self) -> Grammar {
        self.grammar
    }

    pub closed spec fn spec_config(&self) -> EngineConfig {
        self.config
    }

    pub closed spec fn spec_vocabulary(&self) -> Vocabulary {
        self.vocabulary
    }

    /// The Earley sets, one per byte accepted, after the initial one.
    pub closed spec fn chart(&self) -> Seq<Seq<EarleyItem>> {
        earley_rows(self.earley_sets)
    }

    /// For each Earley set, the postdot index of its column.
    pub closed spec fn postdot(&self) -> Seq<Map<u32, PostDotItems>> {
        self.postdot_items@.map_values(|m: HashMap<u32, PostDotItems>| m@)
    }

    /// For each Earley set, whether the start nonterminal was derived from all
    /// of the input up to it.
    pub closed spec fn finished_flags(&self) -> Seq<bool> {
        self.finished@
    }

    pub closed spec fn leo(&self) -> Seq<Map<u32, (u32, u32)>> {
        self.leo_items@.map_values(|m: HashMap<u32, (u32, u32)>| m@)
    }

    /// The token ids of the last computation of allowed tokens.
    pub closed spec fn allowed(&self) -> Set<int> {
        bitset_ones(self.allowed_token_ids)
    }

    pub closed spec fn predicted(&self) -> Set<int> {
        bitset_ones(self.already_predicted_nonterminals)
    }

    pub open spec fn spec_is_finished(&self) -> bool {
        self.finished_flags().last()
    }

    pub open spec fn last_row(&self) -> Seq<EarleyItem> {
        self.chart().last()
    }

    /// Everything but the last row's contents is consistent: used while a step
    /// is in progress, and, with an empty predicted set, between steps.
    pub closed spec fn inv(&self) -> bool {
        let g = self.grammar;
        let rows = earley_rows(self.earley_sets);
        &&& g.wf()
        &&& fits_state_words(g)
        &&& self.vocabulary.wf()
        &&& 1 <= rows.len() <= u32::MAX
        &&& self.postdot_items@.len() == rows.len()
        &&& self.finished@.len() == rows.len()
        &&& self.leo_items@.len() == rows.len()
        &&& rows_wf(g, rows)
        &&& postdot_wf(g, self.postdot())
        &&& leo_wf(g, self.leo())
        &&& memo_valid(self.postdot(), self.leo(), (g.spec_start(), 0))
        &&& bitset_len(self.already_predicted_nonterminals) == g.nonterminal_count()
        &&& forall|x: int| #[trigger]
            bitset_ones(self.already_predicted_nonterminals).contains(x) ==> 0 <= x
                < g.nonterminal_count()
        &&& bitset_len(self.allowed_first_bytes) == 256
        &&& bitset_len(self.allowed_token_ids) == self.vocabulary.size()
        &&& forall|x: int| #[trigger]
            bitset_ones(self.allowed_first_bytes).contains(x) ==> 0 <= x < 256
    }

    /// The engine between steps: consistent, with every Earley set closed
    /// under Predict and indexed exactly by its postdot column.
    pub open spec fn wf(&self) -> bool {
        &&& self.inv()
        &&& self.spec_grammar().wf()
        &&& fits_state_words(self.spec_grammar())
        &&& self.spec_vocabulary().wf()
        &&& 1 <= self.chart().len() <= u32::MAX
        &&& self.postdot().len() == self.chart().len()
        &&& self.finished_flags().len() == self.chart().len()
        &&& rows_wf(self.spec_grammar(), self.chart())
        &&& postdot_wf(self.spec_grammar(), self.postdot())
        &&& self.predicted() == Set::<int>::empty()
        &&& rows_closed(self.spec_grammar(), self.chart())
        &&& indexes_below(self.spec_grammar(), self.chart(), self.postdot(), self.chart().len() as int)
    }

    /// The engine after Predict and before the postdot update: as between
    /// steps, but for the index of the last column.
    pub open spec fn wf_before_index(&self) -> bool {
        &&& self.inv()
        &&& self.predicted() == Set::<int>::empty()
        &&& rows_closed(self.spec_grammar(), self.chart())
        &&& indexes_below(self.spec_grammar(), self.chart(), self.postdot(), self.chart().len() - 1)
    }

    /// The rows, postdot columns and flags below `n` are those of `old`.
    pub open spec fn keeps_prefix(&self, old: &EngineBase, n: int) -> bool {
        &&& self.chart().len() >= n
        &&& self.chart().take(n) == old.chart().take(n)
        &&& self.postdot().take(n) == old.postdot().take(n)
        &&& self.finished_flags().take(n) == old.finished_flags().take(n)
    }

    /// The rows, postdot columns and flags are those of `old`.
    pub open spec fn same_chart(&self, old: &EngineBase) -> bool {
        &&& self.chart() == old.chart()
        &&& self.postdot() == old.postdot()
        &&& self.finished_flags() == old.finished_flags()
    }

    /// Only the Earley sets differ from `old`.
    pub closed spec fn same_except_rows(&self, old: &EngineBase) -> bool {
        &&& self.grammar == old.grammar
        &&& self.vocabulary == old.vocabulary
        &&& self.allowed_first_bytes == old.allowed_first_bytes
        &&& self.allowed_token_ids == old.allowed_token_ids
        &&& self.postdot_items == old.postdot_items
        &&& self.finished == old.finished
        &&& self.leo_items == old.leo_items
        &&& self.already_predicted_nonterminals == old.already_predicted_nonterminals
        &&& self.config == old.config
    }

    /// Appends `item` to the last Earley set unless it is there already.
    fn push_unique(&mut self, item: EarleyItem)
        requires
            old(self).inv(),
            item_wf(old(self).grammar, item, old(self).chart().len() - 1),
        ensures
            final(self).inv(),
            final(self).same_except_rows(old(self)),
            final(self).chart().len() == old(self).chart().len(),
            final(self).chart().take(final(self).chart().len() - 1) == old(self).chart().take(
                old(self).chart().len() - 1,
            ),
            final(self).last_row() == if old(self).last_row().contains(item) {
                old(self).last_row()
            } else {
                old(self).last_row().push(item)
            },
            final(self).last_row().contains(item),
    {
        let k = self.earley_sets.len() - 1;
        let n = self.earley_sets.row_len(k);
        let ghost row = self.chart()[k as int];
        let mut j: usize = 0;
        while j < n
            invariant
                *self == *old(self),
                self.inv(),
                item_wf(self.grammar, item, self.chart().len() - 1),
                k == self.chart().len() - 1,
                n == row.len(),
                row == self.chart()[k as int],
                j <= n,
                forall|m: int| 0 <= m < j ==> row[m] != item,
            decreases n - j,
        {
            if self.earley_sets.get(k, j) == item {
                assert(row[j as int] == item);
                return;
            }
            j = j + 1;
        }
        assert(!row.contains(item));
        let ghost old_rows = self.chart();
        assert(row.push(item)[row.len() as int] == item);
        self.earley_sets.push_to_last_row(item);
        proof {
            let rows = self.chart();
            assert(rows.take(k as int) == old_rows.take(k as int));
            let new_row = row.push(item);
            assert(rows[k as int] == new_row);
            assert(new_row.no_duplicates()) by {
                assert forall|a: int, b: int|
                    0 <= a < new_row.len() && 0 <= b < new_row.len() && a != b implies new_row[a]
                    != new_row[b] by {
                    if a < row.len() && b < row.len() {
                        assert(old_rows[k as int].no_duplicates());
                    } else if a < row.len() {
                        assert(row[a] != item);
                    } else if b < row.len() {
                        assert(row[b] != item);
                    }
                }
            }
            assert forall|kk: int, jj: int|
                0 <= kk < rows.len() && 0 <= jj < rows[kk].len() implies item_wf(
                self.grammar,
                #[trigger] rows[kk][jj],
                kk,
            ) by {
                if kk < k {
                    assert(rows[kk] == old_rows[kk]);
                } else if jj < row.len() {
                    assert(rows[kk][jj] == old_rows[kk][jj]);
                }
            }
            assert forall|kk: int| 0 <= kk < rows.len() implies (#[trigger] rows[kk]).no_duplicates() by {
                if kk < k {
                    assert(rows[kk] == old_rows[kk]);
                }
            }
        }
    }

    /// The grammar, vocabulary, byte and token sets and config are those of `old`.
    pub closed spec fn same_tables(&self, old: &EngineBase) -> bool {
        &&& self.grammar == old.grammar
        &&& self.vocabulary == old.vocabulary
        &&& self.allowed_first_bytes == old.allowed_first_bytes
        &&& self.allowed_token_ids == old.allowed_token_ids
        &&& self.config == old.config
    }

    /// The last Earley set of `self` begins with that of `old`; the sets below
    /// it are those of `old`.
    pub open spec fn extends_last_row(&self, old: &EngineBase) -> bool {
        let n = old.chart().len();
        &&& self.chart().len() == n
        &&& self.chart().take(n - 1) == old.chart().take(n - 1)
        &&& self.last_row().len() >= old.last_row().len()
        &&& self.last_row().take(old.last_row().len() as int) == old.last_row()
    }

    proof fn lemma_push_extends(&self, old: &EngineBase, mid: &EngineBase)
        requires
            mid.extends_last_row(old),
            self.chart().len() == mid.chart().len(),
            self.chart().take(self.chart().len() - 1) == mid.chart().take(mid.chart().len() - 1),
            self.last_row() == mid.last_row() || self.last_row() == mid.last_row().push(
                self.last_row().last(),
            ),
        ensures
            self.extends_last_row(old),
    {
        let a = old.last_row();
        let b = mid.last_row();
        let c = self.last_row();
        assert(c.take(a.len() as int) =~= b.take(a.len() as int));
    }

    /// Adds the productions of `nt` to the last Earley set, unless `nt` was
    /// already predicted there.
    fn predict_nonterminal(&mut self, nt: u32)
        requires
            old(self).inv(),
            (nt as int) < old(self).grammar.nonterminal_count(),
        ensures
            final(self).inv(),
            final(self).same_tables(old(self)),
            final(self).postdot_items == old(self).postdot_items,
            final(self).finished == old(self).finished,
            final(self).leo_items == old(self).leo_items,
            final(self).predicted() == old(self).predicted().insert(nt as int),
            final(self).extends_last_row(old(self)),
            old(self).predicted().contains(nt as int) ==> final(self).chart() == old(self).chart(),
            !old(self).predicted().contains(nt as int) ==> has_predictions(
                final(self).grammar,
                final(self).last_row(),
                nt,
                final(self).chart().len() - 1,
            ),
            forall|j: int|
                old(self).last_row().len() <= j < final(self).last_row().len() ==> {
                    let it = #[trigger] final(self).last_row()[j];
                    &&& it.nonterminal_id == nt
                    &&& (it.production_index as int) < final(self).grammar.production_count(nt as int)
                    &&& it == predicted_item(
                        final(self).grammar,
                        nt,
                        it.production_index as int,
                        final(self).chart().len() - 1,
                    )
                },
    {
        let k = self.earley_sets.len() - 1;
        if self.already_predicted_nonterminals.contains(nt as usize) {
            assert(self.predicted().insert(nt as int) =~= self.predicted());
            assert(self.last_row().take(self.last_row().len() as int) =~= self.last_row());
            return;
        }
        self.already_predicted_nonterminals.insert(nt as usize);
        let count = self.grammar.get_production_len(nt);
        let ghost start = *self;
        assert(self.last_row().take(self.last_row().len() as int) =~= self.last_row());
        let mut p: usize = 0;
        while p < count
            invariant
                self.inv(),
                self.same_tables(&start),
                self.postdot_items == start.postdot_items,
                self.finished == start.finished,
                self.leo_items == start.leo_items,
                self.already_predicted_nonterminals == start.already_predicted_nonterminals,
                self.extends_last_row(&start),
                k == self.chart().len() - 1,
                (nt as int) < self.grammar.nonterminal_count(),
                count == self.grammar.production_count(nt as int),
                p <= count,
                forall|q: int|
                    0 <= q < p ==> #[trigger] self.last_row().contains(
                        predicted_item(self.grammar, nt, q, k as int),
                    ),
                forall|j: int|
                    start.last_row().len() <= j < self.last_row().len() ==> {
                        let it = #[trigger] self.last_row()[j];
                        &&& it.nonterminal_id == nt
                        &&& (it.production_index as int) < self.grammar.production_count(nt as int)
                        &&& it == predicted_item(self.grammar, nt, it.production_index as int, k as int)
                    },
            decreases count - p,
        {
            let node = self.grammar.get_node(nt, p as u32, 0);
            let state = self.initialize_state_id_based_on_node(node);
            let item = EarleyItem {
                nonterminal_id: nt,
                dot_position: 0,
                production_index: p as u32,
                start_position: k as u32,
                state_id: state,
            };
            let ghost mid = *self;
            self.push_unique(item);
            proof {
                self.lemma_push_extends(&start, &mid);
                assert(item == predicted_item(self.grammar, nt, p as int, k as int));
                assert forall|j: int|
                    start.last_row().len() <= j < self.last_row().len() implies {
                        let it = #[trigger] self.last_row()[j];
                        &&& it.nonterminal_id == nt
                        &&& (it.production_index as int) < self.grammar.production_count(nt as int)
                        &&& it == predicted_item(self.grammar, nt, it.production_index as int, k as int)
                    } by {
                    if j < mid.last_row().len() {
                        assert(self.last_row()[j] == mid.last_row()[j]);
                    } else {
                        assert(self.last_row()[j] == item);
                    }
                }
                assert(self.last_row().contains(item)) by {
                    if mid.last_row().contains(item) {
                        assert(self.last_row() == mid.last_row());
                    } else {
                        assert(self.last_row().last() == item);
                    }
                }
                assert(self.last_row().take(mid.last_row().len() as int) =~= mid.last_row());
                assert forall|q: int|
                    0 <= q < p + 1 implies #[trigger] self.last_row().contains(
                    predicted_item(self.grammar, nt, q, k as int),
                ) by {
                    if q < p {
                        lemma_prefix_contains(
                            mid.last_row(),
                            self.last_row(),
                            predicted_item(self.grammar, nt, q, k as int),
                        );
                    }
                }
            }
            p = p + 1;
        }
    }

    proof fn lemma_predicted_bounded(&self)
        requires
            self.inv(),
        ensures
            self.predicted().finite(),
            self.predicted().len() <= self.grammar.nonterminal_count(),
    {
        let n = self.grammar.nonterminal_count() as int;
        lemma_int_range(0, n);
        assert(self.predicted().subset_of(set_int_range(0, n)));
        lemma_len_subset(self.predicted(), set_int_range(0, n));
    }

    /// Runs Predict to closure on the last Earley set, then forgets which
    /// nonterminals were predicted.
    fn predict(&mut self)
        requires
            old(self).inv(),
            rows_closed(old(self).grammar, old(self).chart().take(old(self).chart().len() - 1)),
            indexes_below(
                old(self).grammar,
                old(self).chart(),
                old(self).postdot(),
                old(self).chart().len() - 1,
            ),
            forall|n: u32| #[trigger]
                old(self).predicted().contains(n as int) ==> has_predictions(
                    old(self).grammar,
                    old(self).last_row(),
                    n,
                    old(self).chart().len() - 1,
                ),
        ensures
            final(self).wf_before_index(),
            final(self).same_tables(old(self)),
            final(self).postdot_items == old(self).postdot_items,
            final(self).finished == old(self).finished,
            final(self).leo_items == old(self).leo_items,
            final(self).extends_last_row(old(self)),
            predict_closed(final(self).grammar, final(self).last_row(), final(self).chart().len() - 1),
            forall|j: int|
                old(self).last_row().len() <= j < final(self).last_row().len() ==> #[trigger] predicted_at(
                    final(self).grammar,
                    final(self).last_row(),
                    j,
                    final(self).chart().len() - 1,
                ),
    {
        let k = self.earley_sets.len() - 1;
        let ghost start = *self;
        let ghost g = self.grammar;
        assert(self.last_row().take(self.last_row().len() as int) =~= self.last_row());
        let mut i: usize = 0;
        proof {
            self.lemma_predicted_bounded();
        }
        while i < self.earley_sets.row_len(k)
            invariant
                self.inv(),
                self.same_tables(&start),
                self.postdot_items == start.postdot_items,
                self.finished == start.finished,
                self.leo_items == start.leo_items,
                self.extends_last_row(&start),
                g == self.grammar,
                k == self.chart().len() - 1,
                i <= self.last_row().len(),
                self.predicted().finite(),
                self.predicted().len() <= self.grammar.nonterminal_count(),
                forall|n: u32| #[trigger]
                    self.predicted().contains(n as int) ==> has_predictions(g, self.last_row(), n, k as int),
                forall|j: int|
                    0 <= j < i ==> match item_node(g, #[trigger] self.last_row()[j]) {
                        Node::Nonterminal(n) => self.predicted().contains(n as int),
                        _ => true,
                    },
                forall|j: int|
                    start.last_row().len() <= j < self.last_row().len() ==> #[trigger] predicted_at(
                        g,
                        self.last_row(),
                        j,
                        k as int,
                    ),
            decreases self.grammar.nonterminal_count() - self.predicted().len(), self.last_row().len() - i,
        {
            let item = self.earley_sets.get(k, i);
            assert(item_wf(self.grammar, item, k as int));
            let node = self.grammar.get_node(
                item.nonterminal_id,
                item.production_index,
                item.dot_position,
            );
            let ghost before = *self;
            match node {
                Node::Nonterminal(nt) => {
                    assert(node_valid(
                        self.grammar.spec_rules(),
                        self.grammar.spec_terminals(),
                        self.grammar.spec_regexes(),
                        self.grammar.spec_excepteds(),
                        self.grammar.spec_rules()[item.nonterminal_id as int]@[item.production_index as int]@[item.dot_position as int],
                    ));
                    self.predict_nonterminal(nt);
                    proof {
                        self.lemma_predicted_bounded();
                        if !before.predicted().contains(nt as int) {
                            assert(self.predicted().len() == before.predicted().len() + 1);
                        }
                        assert(self.chart().take(k as int) =~= start.chart().take(k as int)) by {
                            assert(self.chart().take(k as int) =~= before.chart().take(k as int));
                        }
                        let a = start.last_row();
                        let b = before.last_row();
                        let c = self.last_row();
                        assert(c.take(a.len() as int) =~= b.take(a.len() as int));
                        assert(c.take(b.len() as int) =~= b);
                        assert forall|n: u32| #[trigger]
                            self.predicted().contains(n as int) implies has_predictions(g, c, n, k as int) by {
                            if before.predicted().contains(n as int) {
                                lemma_prefix_has_predictions(g, b, c, n, k as int);
                            }
                        }
                        assert forall|j: int|
                            0 <= j < i + 1 implies match item_node(g, #[trigger] c[j]) {
                                Node::Nonterminal(n) => self.predicted().contains(n as int),
                                _ => true,
                            } by {
                            assert(c[j] == b[j]);
                        }
                        assert(item_node(g, c[i as int]) == Node::Nonterminal(nt)) by {
                            assert(c[i as int] == b[i as int]);
                        }
                        assert forall|j: int|
                            start.last_row().len() <= j < c.len() implies #[trigger] predicted_at(
                            g,
                            c,
                            j,
                            k as int,
                        ) by {
                            if j < b.len() {
                                assert(predicted_at(g, b, j, k as int));
                                assert(c[j] == b[j]);
                                let w = choose|w: int|
                                    0 <= w < j && item_node(g, #[trigger] b[w]) == Node::Nonterminal(
                                        b[j].nonterminal_id,
                                    );
                                assert(c[w] == b[w]);
                            } else {
                                assert(i < j);
                                assert(c[j].nonterminal_id == nt);
                            }
                        }
                    }
                },
                _ => {
                    proof {
                        assert(item == self.last_row()[i as int]);
                    }
                },
            }
            i = i + 1;
        }
        proof {
            let row = self.last_row();
            let rows = self.chart();
            assert forall|kk: int| 0 <= kk < k implies predict_closed(g, #[trigger] rows[kk], kk) by {
                assert(rows[kk] == rows.take(k as int)[kk]);
                assert(start.chart().take(k as int)[kk] == rows.take(k as int)[kk]);
            }
            assert forall|kk: int| 0 <= kk < k implies index_exact(g, #[trigger] rows[kk], self.postdot()[kk]) by {
                assert(rows[kk] == rows.take(k as int)[kk]);
                assert(start.chart().take(k as int)[kk] == rows.take(k as int)[kk]);
                assert(index_exact(g, start.chart()[kk], start.postdot()[kk]));
            }
            assert forall|j: int| 0 <= j < row.len() implies match item_node(g, #[trigger] row[j]) {
                Node::Nonterminal(n) => has_predictions(g, row, n, k as int),
                _ => true,
            } by {
                match item_node(g, row[j]) {
                    Node::Nonterminal(n) => {
                        assert(self.predicted().contains(n as int));
                    },
                    _ => {},
                }
            }
        }
        self.already_predicted_nonterminals.clear();
    }

    /// Builds the postdot index of the last column from its items.
    fn update_postdot_items(&mut self)
        requires
            old(self).wf_before_index(),
        ensures
            final(self).wf(),
            final(self).same_tables(old(self)),
            final(self).chart() == old(self).chart(),
            final(self).finished == old(self).finished,
            final(self).postdot().len() == old(self).postdot().len(),
            final(self).postdot().take(old(self).postdot().len() - 1) == old(self).postdot().take(
                old(self).postdot().len() - 1,
            ),
            index_exact(final(self).grammar, final(self).last_row(), final(self).postdot().last()),
            final(self).leo().len() == old(self).leo().len(),
            final(self).leo().last() == Map::<u32, (u32, u32)>::empty(),
    {
        let k = self.earley_sets.len() - 1;
        let n = self.earley_sets.row_len(k);
        let mut m: HashMap<u32, PostDotItems> = HashMap::new();
        proof {
            let r0 = self.last_row().take(0);
            assert(r0 =~= Seq::<EarleyItem>::empty());
            assert(m@ =~= Map::<u32, PostDotItems>::empty());
            assert forall|nt: u32| #![trigger m@.contains_key(nt)]
                m@.contains_key(nt) <==> exists|j: int|
                    0 <= j < r0.len() && item_node(self.grammar, #[trigger] r0[j]) == Node::Nonterminal(nt) by {
            }
        }
        let mut j: usize = 0;
        while j < n
            invariant
                self.wf_before_index(),
                *self == *old(self),
                k == self.chart().len() - 1,
                n == self.last_row().len(),
                j <= n,
                forall|nt: u32| #[trigger]
                    m@.contains_key(nt) ==> postdot_entry_wf(self.grammar, m@[nt], nt, k as int),
                index_exact(self.grammar, self.last_row().take(j as int), m@),
            decreases n - j,
        {
            let item = self.earley_sets.get(k, j);
            let ghost m0 = m@;
            assert(self.chart()[k as int].no_duplicates());
            assert(item_wf(self.grammar, item, k as int));
            let node = self.grammar.get_node(
                item.nonterminal_id,
                item.production_index,
                item.dot_position,
            );
            match node {
                Node::Nonterminal(nt) => {
                    let len = self.grammar.get_node_count(
                        item.nonterminal_id,
                        item.production_index,
                    );
                    let completes = item.dot_position as usize + 1 == len;
                    let entry = match m.remove(&nt) {
                        None => {
                            if completes {
                                PostDotItems::LeoEligible(item)
                            } else {
                                PostDotItems::NormalItems(vec![item])
                            }
                        },
                        Some(PostDotItems::LeoEligible(first)) => {
                            PostDotItems::NormalItems(vec![first, item])
                        },
                        Some(PostDotItems::NormalItems(mut items)) => {
                            let ghost old_items = items@;
                            items.push(item);
                            assert forall|x: EarleyItem| items@.contains(x) <==> (old_items.contains(x)
                                || x == item) by {
                                if items@.contains(x) {
                                    let w = choose|w: int| 0 <= w < items@.len() && items@[w] == x;
                                    if w < old_items.len() {
                                        assert(old_items[w] == x);
                                    }
                                }
                                if old_items.contains(x) {
                                    let w = choose|w: int| 0 <= w < old_items.len() && old_items[w] == x;
                                    assert(items@[w] == x);
                                }
                                if x == item {
                                    assert(items@[old_items.len() as int] == x);
                                }
                            }
                            PostDotItems::NormalItems(items)
                        },
                    };
                    let ghost e = entry;
                    proof {
                        match e {
                            PostDotItems::NormalItems(v) => {
                                if v@.len() == 1 {
                                    assert(v@[0] == item);
                                }
                                assert forall|x: EarleyItem| v@.contains(x) implies (x == item || (
                                    m0.contains_key(nt) && entry_lists(m0[nt], x))) by {
                                    if m0.contains_key(nt) {
                                        match m0[nt] {
                                            PostDotItems::LeoEligible(first) => {
                                                let w = choose|w: int| 0 <= w < v@.len() && v@[w] == x;
                                            },
                                            _ => {},
                                        }
                                    } else {
                                        let w = choose|w: int| 0 <= w < v@.len() && v@[w] == x;
                                    }
                                }
                                assert forall|x: EarleyItem|
                                    (x == item || (m0.contains_key(nt) && entry_lists(m0[nt], x)))
                                    implies v@.contains(x) by {
                                    if x == item {
                                        assert(v@[v@.len() - 1] == item);
                                    } else {
                                        match m0[nt] {
                                            PostDotItems::LeoEligible(first) => {
                                                assert(v@[0] == first);
                                            },
                                            _ => {},
                                        }
                                    }
                                }
                            },
                            _ => {},
                        }
                    }
                    m.insert(nt, entry);
                    proof {
                        assert(item == self.last_row()[j as int]);
                        lemma_index_step(self.grammar, self.last_row(), j as int, m0, m@);
                    }
                },
                _ => {
                    proof {
                        assert(item == self.last_row()[j as int]);
                        lemma_index_step(self.grammar, self.last_row(), j as int, m0, m@);
                    }
                },
            }
            j = j + 1;
        }
        assert(self.last_row().take(n as int) =~= self.last_row());
        let ghost before = self.postdot();
        let ghost before_leo = self.leo();
        self.postdot_items.pop();
        self.postdot_items.push(m);
        self.leo_items.pop();
        self.leo_items.push(HashMap::new());
        proof {
            let after = self.postdot();
            let after_leo = self.leo();
            assert(after.take(k as int) =~= before.take(k as int));
            assert forall|o: int| 0 <= o < after_leo.len() implies #[trigger] after_leo[o] == Map::<
                u32,
                (u32, u32),
            >::empty() || (o < before_leo.len() && after_leo[o] == before_leo[o] && before.take(o + 1)
                == after.take(o + 1)) by {
                if o < k {
                    assert(after_leo[o] == before_leo[o]);
                    assert(before.take(o + 1) =~= after.take(o + 1));
                } else {
                    assert(after_leo[o] =~= Map::<u32, (u32, u32)>::empty());
                }
            }
            lemma_memo_valid_frame(
                self.grammar,
                before,
                before_leo,
                after,
                after_leo,
                (self.grammar.spec_start(), 0),
            );
            assert(after_leo.last() =~= Map::<u32, (u32, u32)>::empty());
            assert forall|kk: int| 0 <= kk < self.chart().len() implies index_exact(
                self.grammar,
                #[trigger] self.chart()[kk],
                after[kk],
            ) by {
                if kk < k {
                    assert(after[kk] == after.take(k as int)[kk]);
                    assert(before[kk] == before.take(k as int)[kk]);
                }
            }
            assert forall|kk: int, x: u32|
                0 <= kk < after_leo.len() && #[trigger] after_leo[kk].contains_key(x) implies {
                &&& (after_leo[kk][x].0 as int) < self.grammar.nonterminal_count()
                &&& after_leo[kk][x].1 as int <= kk
            } by {
                if kk < k {
                    assert(after_leo[kk] == before_leo[kk]);
                }
            }
            assert forall|kk: int, nt: u32|
                0 <= kk < after.len() && #[trigger] after[kk].contains_key(nt) implies postdot_entry_wf(
                self.grammar,
                after[kk][nt],
                nt,
                kk,
            ) by {
                if kk < k {
                    assert(after[kk] == before[kk]);
                }
            }
        }
    }

    /// Moves the dot of `item` one node on: into the last Earley set, or, past
    /// the end of its production, into the pending completions.
    fn advance_item(&mut self, item: EarleyItem, completed: &mut Vec<(u32, u32)>)
        requires
            old(self).inv(),
            (item.nonterminal_id as int) < old(self).grammar.nonterminal_count(),
            (item.production_index as int) < old(self).grammar.production_count(
                item.nonterminal_id as int,
            ),
            (item.dot_position as int) < old(self).grammar.production_len(
                item.nonterminal_id as int,
                item.production_index as int,
            ),
            item.start_position as int <= old(self).chart().len() - 1,
            keys_wf(old(self).grammar, old(completed)@, old(self).chart().len() - 1),
        ensures
            final(self).inv(),
            final(self).same_except_rows(old(self)),
            final(self).extends_last_row(old(self)),
            final(self).last_row().len() > 0 || final(completed)@.len() > 0,
            keys_wf(final(self).grammar, final(completed)@, final(self).chart().len() - 1),
            final(completed)@.len() >= old(completed)@.len(),
            completes_on_advance(old(self).grammar, item) ==> final(completed)@ == old(
                completed,
            )@.push((item.nonterminal_id, item.start_position)) && final(completed)@.contains(
                (item.nonterminal_id, item.start_position),
            ),
            !completes_on_advance(old(self).grammar, item) ==> final(completed)@ == old(
                completed,
            )@ && final(self).last_row().contains(advanced_item(old(self).grammar, item)),
            completes_on_advance(old(self).grammar, item) ==> final(self).last_row() == old(
                self,
            ).last_row(),
            final(self).last_row() == old(self).last_row() || final(self).last_row() == old(
                self,
            ).last_row().push(advanced_item(old(self).grammar, item)),
    {
        let len = self.grammar.get_node_count(item.nonterminal_id, item.production_index);
        if item.dot_position as usize + 1 == len {
            completed.push((item.nonterminal_id, item.start_position));
            assert(completed@[completed@.len() - 1] == (item.nonterminal_id, item.start_position));
            assert(self.last_row().take(self.last_row().len() as int) =~= self.last_row());
        } else {
            let d = item.dot_position + 1;
            let node = self.grammar.get_node(item.nonterminal_id, item.production_index, d);
            let state = self.initialize_state_id_based_on_node(node);
            let advanced = EarleyItem {
                nonterminal_id: item.nonterminal_id,
                dot_position: d,
                production_index: item.production_index,
                start_position: item.start_position,
                state_id: state,
            };
            let ghost before = *self;
            self.push_unique(advanced);
            proof {
                assert(before.last_row().take(before.last_row().len() as int) =~= before.last_row());
                self.lemma_push_extends(&before, &before);
                assert(advanced == advanced_item(before.grammar, item));
                if !before.last_row().contains(advanced) {
                    assert(self.last_row().last() == advanced);
                }
            }
        }
    }

    /// Scan: opens a new Earley set with what the items of the last one become
    /// on `byte`, and collects the completions this causes.
    #[verifier::rlimit(100)]
    #[verifier::spinoff_prover]
    fn scan(&mut self, byte: u8, completed: &mut Vec<(u32, u32)>)
        requires
            old(self).wf(),
            old(self).chart().len() < u32::MAX,
            old(completed)@.len() == 0,
        ensures
            final(self).inv(),
            final(self).predicted() == Set::<int>::empty(),
            final(self).same_tables(old(self)),
            final(self).chart().len() == old(self).chart().len() + 1,
            final(self).chart().take(old(self).chart().len() as int) == old(self).chart(),
            final(self).postdot() == old(self).postdot().push(Map::empty()),
            final(self).finished_flags() == old(self).finished_flags().push(false),
            final(self).leo() == old(self).leo().push(Map::empty()),
            keys_wf(final(self).grammar, final(completed)@, final(self).chart().len() - 1),
            (final(self).last_row().len() > 0 || final(completed)@.len() > 0) <==> row_scans(
                old(self).grammar,
                old(self).last_row(),
                byte,
            ),
            forall|j: int|
                0 <= j < old(self).last_row().len() ==> scan_done(
                    old(self).grammar,
                    #[trigger] old(self).last_row()[j],
                    byte,
                    final(self).last_row(),
                    final(completed)@,
                ),
            forall|j: int|
                0 <= j < final(self).last_row().len() ==> scanned_from(
                    old(self).grammar,
                    old(self).last_row(),
                    byte,
                    #[trigger] final(self).last_row()[j],
                ),
            forall|x: (u32, u32)| #[trigger]
                final(completed)@.contains(x) ==> exists|j: int|
                    0 <= j < old(self).last_row().len() && scan_advances(
                        old(self).grammar,
                        #[trigger] old(self).last_row()[j],
                        byte,
                    ) && completes_on_advance(old(self).grammar, old(self).last_row()[j]) && x == (
                        old(self).last_row()[j].nonterminal_id,
                        old(self).last_row()[j].start_position,
                    ),
    {
        let k = self.earley_sets.len() - 1;
        let n = self.earley_sets.row_len(k);
        let ghost old_row = self.last_row();
        let ghost g = self.grammar;
        self.earley_sets.new_row();
        self.postdot_items.push(HashMap::new());
        self.finished.push(false);
        self.leo_items.push(HashMap::new());
        proof {
            let rows = self.chart();
            assert(rows.take(k + 1) =~= old(self).chart());
            assert(self.postdot() =~= old(self).postdot().push(Map::empty()));
            assert(self.leo() =~= old(self).leo().push(Map::empty()));
            assert forall|kk: int, jj: int|
                0 <= kk < rows.len() && 0 <= jj < rows[kk].len() implies item_wf(
                g,
                #[trigger] rows[kk][jj],
                kk,
            ) by {
                assert(rows[kk] == old(self).chart()[kk]);
            }
            assert forall|kk: int| 0 <= kk < rows.len() implies (#[trigger] rows[kk]).no_duplicates() by {
                if kk <= k {
                    assert(rows[kk] == old(self).chart()[kk]);
                }
            }
            assert forall|kk: int, nt: u32|
                0 <= kk < self.postdot().len() && #[trigger] self.postdot()[kk].contains_key(nt)
                implies postdot_entry_wf(g, self.postdot()[kk][nt], nt, kk) by {
                assert(self.postdot()[kk] == old(self).postdot()[kk]);
            }
            assert forall|kk: int, nt: u32|
                0 <= kk < self.leo().len() && #[trigger] self.leo()[kk].contains_key(nt) implies {
                &&& (self.leo()[kk][nt].0 as int) < g.nonterminal_count()
                &&& self.leo()[kk][nt].1 as int <= kk
            } by {
                assert(self.leo()[kk] == old(self).leo()[kk]);
            }
            let before = old(self).postdot();
            let before_leo = old(self).leo();
            let after = self.postdot();
            let after_leo = self.leo();
            assert forall|o: int| 0 <= o < after_leo.len() implies #[trigger] after_leo[o] == Map::<
                u32,
                (u32, u32),
            >::empty() || (o < before_leo.len() && after_leo[o] == before_leo[o] && before.take(o + 1)
                == after.take(o + 1)) by {
                if o <= k {
                    assert(before.take(o + 1) =~= after.take(o + 1));
                }
            }
            lemma_memo_valid_frame(g, before, before_leo, after, after_leo, (g.spec_start(), 0));
        }
        let ghost start = *self;
        let mut i: usize = 0;
        while i < n
            invariant
                self.inv(),
                self.predicted() == Set::<int>::empty(),
                self.same_tables(&start),
                self.postdot_items == start.postdot_items,
                self.finished == start.finished,
                self.leo_items == start.leo_items,
                g == self.grammar,
                self.chart().len() == k + 2,
                self.chart().take(k + 1) == old(self).chart(),
                old_row == self.chart()[k as int],
                n == old_row.len(),
                i <= n,
                keys_wf(g, completed@, k + 1),
                (self.last_row().len() > 0 || completed@.len() > 0) <==> exists|j: int|
                    0 <= j < i && scans(g, #[trigger] old_row[j], byte),
                forall|j: int|
                    0 <= j < i ==> scan_done(g, #[trigger] old_row[j], byte, self.last_row(), completed@),
                forall|j: int|
                    0 <= j < self.last_row().len() ==> scanned_from(
                        g,
                        old_row,
                        byte,
                        #[trigger] self.last_row()[j],
                    ),
                forall|x: (u32, u32)| #[trigger]
                    completed@.contains(x) ==> exists|j: int|
                        0 <= j < i && scan_advances(g, #[trigger] old_row[j], byte)
                            && completes_on_advance(g, old_row[j]) && x == (
                            old_row[j].nonterminal_id,
                            old_row[j].start_position,
                        ),
            decreases n - i,
        {
            let item = self.earley_sets.get(k, i);
            proof {
                assert(self.chart()[k as int] == old(self).chart()[k as int]);
                assert(item == old_row[i as int]);
                assert(item_wf(g, item, k as int));
            }
            let ghost before = *self;
            let ghost before_keys = completed@;
            let node = self.grammar.get_node(
                item.nonterminal_id,
                item.production_index,
                item.dot_position,
            );
            assert(node_valid(
                g.spec_rules(),
                g.spec_terminals(),
                g.spec_regexes(),
                g.spec_excepteds(),
                g.spec_rules()[item.nonterminal_id as int]@[item.production_index as int]@[item.dot_position as int],
            ));
            assert(node_fits(g, g.spec_node(item.nonterminal_id as int, item.production_index as int, item.dot_position as int)));
            match node {
                Node::Terminal(t) => {
                    let terminal = self.grammar.get_terminal(t);
                    let idx = item.state_id as usize;
                    let tb = terminal[idx];
                    let tlen = terminal.len();
                    if tb == byte {
                        if idx + 1 < tlen {
                            let moved = EarleyItem {
                                nonterminal_id: item.nonterminal_id,
                                dot_position: item.dot_position,
                                production_index: item.production_index,
                                start_position: item.start_position,
                                state_id: (idx + 1) as u32,
                            };
                            self.push_unique(moved);
                            assert(scan_done(g, item, byte, self.last_row(), completed@));
                        } else {
                            self.advance_item(item, completed);
                            assert(scan_done(g, item, byte, self.last_row(), completed@));
                        }
                    }
                },
                Node::RegexString(x) => {
                    let fsa = self.grammar.get_regex(x);
                    assert(g.spec_regexes()[x as int].wf());
                    let s2 = fsa.next_state(item.state_id, byte);
                    let st = fsa.status(s2);
                    let moved = EarleyItem {
                        nonterminal_id: item.nonterminal_id,
                        dot_position: item.dot_position,
                        production_index: item.production_index,
                        start_position: item.start_position,
                        state_id: s2,
                    };
                    match st {
                        FsaStatus::Accept => {
                            self.advance_item(item, completed);
                            let ghost mid_row = self.last_row();
                            self.push_unique(moved);
                            proof {
                                assert(self.last_row().take(mid_row.len() as int) =~= mid_row);
                                if !completes_on_advance(g, item) {
                                    lemma_prefix_contains(mid_row, self.last_row(), advanced_item(g, item));
                                }
                            }
                        },
                        FsaStatus::InProgress => {
                            self.push_unique(moved);
                            assert(scan_done(g, item, byte, self.last_row(), completed@));
                        },
                        FsaStatus::Reject => {
                            assert(scan_done(g, item, byte, self.last_row(), completed@));
                        },
                    }
                },
                Node::Except(e, reps) => {
                    let fsa = self.grammar.get_excepted(e);
                    assert(g.spec_excepteds()[e as int].wf());
                    assert(g.spec_excepteds()[e as int].state_count() <= u32::MAX);
                    let count = fsa.statuses.len() as u32;
                    match reps {
                        None => {
                            let s2 = fsa.next_state(item.state_id, byte);
                            let st = fsa.status(s2);
                            assert(st != FsaStatus::Reject);
                            if st == FsaStatus::InProgress {
                                let moved = EarleyItem {
                                    nonterminal_id: item.nonterminal_id,
                                    dot_position: item.dot_position,
                                    production_index: item.production_index,
                                    start_position: item.start_position,
                                    state_id: s2,
                                };
                                self.advance_item(item, completed);
                                let ghost mid_row = self.last_row();
                                self.push_unique(moved);
                                proof {
                                    assert(self.last_row().take(mid_row.len() as int) =~= mid_row);
                                    if !completes_on_advance(g, item) {
                                        lemma_prefix_contains(mid_row, self.last_row(), advanced_item(g, item));
                                    }
                                }
                            }
                        },
                        Some(r) => {
                            let s = item.state_id % count;
                            let rem = item.state_id / count;
                            let s2 = fsa.next_state(s, byte);
                            let st = fsa.status(s2);
                            assert(st != FsaStatus::Reject);
                            if st == FsaStatus::InProgress {
                                self.advance_item(item, completed);
                                if rem > 0 {
                                    proof {
                                        let c = count as int;
                                        assert((rem as int) <= r as int) by (nonlinear_arith)
                                            requires
                                                (item.state_id as int) < (r as int + 1) * c,
                                                rem as int == (item.state_id as int) / c,
                                                c > 0,
                                        ;
                                        assert((rem as int - 1) * c + (s2 as int) < (r as int + 1) * c)
                                            by (nonlinear_arith)
                                            requires
                                                (rem as int) <= r as int,
                                                (s2 as int) < c,
                                                rem >= 1,
                                        ;
                                        assert((rem as int - 1) * c >= 0) by (nonlinear_arith)
                                            requires
                                                rem >= 1,
                                                c > 0,
                                        ;
                                        vstd::arithmetic::div_mod::lemma_fundamental_div_mod_converse(
                                            (rem as int - 1) * c + (s2 as int),
                                            c,
                                            rem as int - 1,
                                            s2 as int,
                                        );
                                    }
                                    let moved = EarleyItem {
                                        nonterminal_id: item.nonterminal_id,
                                        dot_position: item.dot_position,
                                        production_index: item.production_index,
                                        start_position: item.start_position,
                                        state_id: ((rem - 1) as u64 * count as u64 + s2 as u64) as u32,
                                    };
                                    assert(moved == with_state(
                                        item,
                                        ((rem as int - 1) * (count as int) + s2 as int) as u32,
                                    ));
                                    let ghost mid_row = self.last_row();
                                    self.push_unique(moved);
                                    proof {
                                        assert(self.last_row().take(mid_row.len() as int) =~= mid_row);
                                        if !completes_on_advance(g, item) {
                                            lemma_prefix_contains(mid_row, self.last_row(), advanced_item(g, item));
                                        }
                                    }
                                }
                            }
                        },
                    }
                },
                Node::Nonterminal(_) => {},
            }
            proof {
                assert forall|x: (u32, u32)| #[trigger]
                    completed@.contains(x) implies exists|j: int|
                        0 <= j < i + 1 && scan_advances(g, #[trigger] old_row[j], byte)
                            && completes_on_advance(g, old_row[j]) && x == (
                            old_row[j].nonterminal_id,
                            old_row[j].start_position,
                        ) by {
                    if !before_keys.contains(x) {
                        assert(completed@ != before_keys);
                        assert(completed@ == before_keys.push((item.nonterminal_id, item.start_position)));
                        assert(x == (item.nonterminal_id, item.start_position)) by {
                            let w = choose|w: int| 0 <= w < completed@.len() && completed@[w] == x;
                            if w < before_keys.len() {
                                assert(completed@[w] == before_keys[w]);
                            }
                        }
                        assert(scan_advances(g, old_row[i as int], byte));
                    }
                }
                assert(scan_done(g, old_row[i as int], byte, self.last_row(), completed@));
                assert(self.last_row().len() >= before.last_row().len());
                assert forall|j: int| 0 <= j < self.last_row().len() implies scanned_from(
                    g,
                    old_row,
                    byte,
                    #[trigger] self.last_row()[j],
                ) by {
                    if j < before.last_row().len() {
                        assert(self.last_row()[j] == before.last_row()[j]);
                    } else {
                        let x = self.last_row()[j];
                        assert(scan_moved(g, old_row[i as int], byte) == Some(x) || (scan_advances(
                            g,
                            old_row[i as int],
                            byte,
                        ) && !completes_on_advance(g, old_row[i as int]) && x == advanced_item(
                            g,
                            old_row[i as int],
                        )));
                    }
                }
                assert(self.last_row().take(before.last_row().len() as int) =~= before.last_row());
                assert(completed@.take(before_keys.len() as int) =~= before_keys);
                assert forall|j: int| 0 <= j < i implies scan_done(
                    g,
                    #[trigger] old_row[j],
                    byte,
                    self.last_row(),
                    completed@,
                ) by {
                    lemma_scan_done_grows(
                        g,
                        old_row[j],
                        byte,
                        before.last_row(),
                        before_keys,
                        self.last_row(),
                        completed@,
                    );
                }
                if self.last_row().len() > 0 || completed@.len() > 0 {
                    if !(before.last_row().len() > 0 || before_keys.len() > 0) {
                        assert(scans(g, old_row[i as int], byte));
                    }
                }
                if scans(g, old_row[i as int], byte) {
                    assert(self.last_row().len() > 0 || completed@.len() > 0);
                }
            }
            i = i + 1;
        }
        proof {
            if row_scans(g, old_row, byte) {
                let j = choose|j: int| 0 <= j < old_row.len() && scans(g, #[trigger] old_row[j], byte);
                assert(scans(g, old_row[j], byte));
            }
        }
    }

    /// Rolls the chart back to its first `len` Earley sets, with their postdot
    /// columns, flags and memoized Leo items.
    fn revert_change(&mut self, len: usize)
        requires
            old(self).inv(),
            1 <= len <= old(self).chart().len(),
        ensures
            final(self).inv(),
            final(self).same_tables(old(self)),
            final(self).predicted() == old(self).predicted(),
            final(self).chart() == old(self).chart().take(len as int),
            final(self).postdot() == old(self).postdot().take(len as int),
            final(self).finished_flags() == old(self).finished_flags().take(len as int),
    {
        self.earley_sets.truncate(len);
        self.postdot_items.truncate(len);
        self.finished.truncate(len);
        self.leo_items.truncate(len);
        proof {
            let g = self.grammar;
            let rows = self.chart();
            assert(self.postdot() =~= old(self).postdot().take(len as int));
            assert(self.leo() =~= old(self).leo().take(len as int));
            assert forall|kk: int, jj: int|
                0 <= kk < rows.len() && 0 <= jj < rows[kk].len() implies item_wf(
                g,
                #[trigger] rows[kk][jj],
                kk,
            ) by {
                assert(rows[kk] == old(self).chart()[kk]);
            }
            assert forall|kk: int| 0 <= kk < rows.len() implies (#[trigger] rows[kk]).no_duplicates() by {
                assert(rows[kk] == old(self).chart()[kk]);
            }
            assert forall|kk: int, nt: u32|
                0 <= kk < self.postdot().len() && #[trigger] self.postdot()[kk].contains_key(nt)
                implies postdot_entry_wf(g, self.postdot()[kk][nt], nt, kk) by {
                assert(self.postdot()[kk] == old(self).postdot()[kk]);
            }
            assert forall|kk: int, nt: u32|
                0 <= kk < self.leo().len() && #[trigger] self.leo()[kk].contains_key(nt) implies {
                &&& (self.leo()[kk][nt].0 as int) < g.nonterminal_count()
                &&& self.leo()[kk][nt].1 as int <= kk
            } by {
                assert(self.leo()[kk] == old(self).leo()[kk]);
            }
            let before = old(self).postdot();
            let before_leo = old(self).leo();
            let after = self.postdot();
            let after_leo = self.leo();
            assert forall|o: int| 0 <= o < after_leo.len() implies #[trigger] after_leo[o] == Map::<
                u32,
                (u32, u32),
            >::empty() || (o < before_leo.len() && after_leo[o] == before_leo[o] && before.take(o + 1)
                == after.take(o + 1)) by {
                assert(before.take(o + 1) =~= after.take(o + 1));
            }
            lemma_memo_valid_frame(g, before, before_leo, after, after_leo, (g.spec_start(), 0));
        }
    }

    /// The number of Leo steps that [`Self::try_leo_complete_item`] walks at most.
    pub open spec fn leo_fuel(&self) -> nat {
        (self.chart().len() + self.spec_grammar().nonterminal_count()) as nat
    }

    /// Leo completion: from the pending completion `(nt, origin)`, follows the
    /// chain of Leo-eligible postdot entries up to its end, memoizing that end
    /// for every key on the way. Answers from the memo, unchanged, when it
    /// holds `(nt, origin)`. `None` when `(nt, origin)` has no chain.
    ///
    /// The walk stops at the start nonterminal's completion from the first set,
    /// so that completion is carried out on its own and marks the input
    /// finished rather than being skipped. It also stops, with `None` and
    /// nothing memoized, when the chain does not end within
    /// [`Self::leo_fuel`] steps: unit productions that derive each other make
    /// chains that never end, and completion then goes on without the
    /// shortcut.
    fn try_leo_complete_item(&mut self, nt: u32, origin: u32) -> (r: Option<(u32, u32)>)
        requires
            old(self).inv(),
            (nt as int) < old(self).grammar.nonterminal_count(),
            (origin as int) < old(self).chart().len(),
        ensures
            final(self).inv(),
            final(self).same_tables(old(self)),
            final(self).predicted() == old(self).predicted(),
            final(self).same_chart(old(self)),
            r matches Some(top) ==> (top.0 as int) < final(self).grammar.nonterminal_count()
                && top.1 <= origin,
            r matches Some(top) ==> leo_reaches(
                final(self).postdot(),
                (nt, origin),
                top,
                (final(self).grammar.spec_start(), 0u32),
            ),
            r matches Some(top) ==> leo_end(
                final(self).postdot(),
                top,
                (final(self).grammar.spec_start(), 0u32),
            ),
            r matches Some(top) ==> final(self).leo()[origin as int].contains_key(nt)
                && final(self).leo()[origin as int][nt] == top,
            old(self).leo()[origin as int].contains_key(nt) ==> r == Some(
                old(self).leo()[origin as int][nt],
            ),
            old(self).leo()[origin as int].contains_key(nt) ==> final(self).leo() == old(self).leo(),
            !old(self).leo()[origin as int].contains_key(nt) ==> (r matches Some(top) ==> exists|m: nat|
                #[trigger] leo_chain(
                    final(self).postdot(),
                    (nt, origin),
                    top,
                    m,
                    (final(self).grammar.spec_start(), 0u32),
                ) && chain_memoized(final(self).postdot(), final(self).leo(), (nt, origin), top, m)),
            !old(self).leo()[origin as int].contains_key(nt) ==> (r is None <==> ((nt, origin) == (
                old(self).grammar.spec_start(),
                0u32,
            ) || leo_next(old(self).postdot(), (nt, origin)) is None || !leo_ends_within(
                old(self).postdot(),
                (nt, origin),
                (old(self).grammar.spec_start(), 0u32),
                old(self).leo_fuel(),
            ))),
    {
        let ghost pd = self.postdot();
        let ghost fin = (self.grammar.spec_start(), 0u32);
        let ghost key = (nt, origin);
        match self.leo_items[origin as usize].get(&nt) {
            Some(top) => {
                assert(self.leo()[origin as int].contains_key(nt));
                assert((origin as int) as u32 == origin);
                return Some(*top);
            },
            None => {},
        }
        assert(!self.leo()[origin as int].contains_key(nt));
        let start = self.grammar.get_start_nonterminal_id();
        let mut visited: Vec<(u32, u32)> = Vec::new();
        let mut cur_nt = nt;
        let mut cur_origin = origin;
        let mut fuel: u64 = self.earley_sets.len() as u64 + self.grammar.get_nonterminals_size() as u64;
        let ghost total = fuel as nat;
        assert(total == self.leo_fuel());
        let mut walking = true;
        let mut exhausted = false;
        while walking
            invariant
                self.inv(),
                *self == *old(self),
                pd == self.postdot(),
                fin == (self.grammar.spec_start(), 0u32),
                key == (nt, origin),
                start == self.grammar.spec_start(),
                (cur_nt as int) < self.grammar.nonterminal_count(),
                cur_origin <= origin,
                (origin as int) < self.chart().len(),
                visited@.len() + fuel == total,
                walking ==> !exhausted,
                exhausted ==> visited@.len() == total && !leo_end(pd, (cur_nt, cur_origin), fin),
                !walking && !exhausted ==> leo_end(pd, (cur_nt, cur_origin), fin),
                leo_iter(pd, key, visited@.len()) == Some((cur_nt, cur_origin)),
                forall|i: int|
                    0 <= i < visited@.len() ==> leo_iter(pd, key, i as nat) == Some(
                        #[trigger] visited@[i],
                    ) && visited@[i] != fin && !leo_end(pd, visited@[i], fin),
                forall|i: int|
                    0 <= i < visited@.len() ==> (#[trigger] visited@[i]).0 < self.grammar.nonterminal_count()
                        && cur_origin <= visited@[i].1 && (visited@[i].1 as int) < self.chart().len(),
            decreases fuel, if walking { 1int } else { 0int },
        {
            if cur_nt == start && cur_origin == 0 {
                walking = false;
            } else {
                match self.postdot_items[cur_origin as usize].get(&cur_nt) {
                    Some(PostDotItems::LeoEligible(it)) => {
                        assert(self.postdot()[cur_origin as int].contains_key(cur_nt));
                        assert(postdot_item_wf(self.grammar, *it, cur_nt, cur_origin as int));
                        assert(leo_next(pd, (cur_nt, cur_origin)) == Some(
                            (it.nonterminal_id, it.start_position),
                        ));
                        if fuel == 0 {
                            walking = false;
                            exhausted = true;
                        } else {
                            let ghost n_before = visited@.len();
                            visited.push((cur_nt, cur_origin));
                            assert(visited@[n_before as int] == (cur_nt, cur_origin));
                            cur_nt = it.nonterminal_id;
                            cur_origin = it.start_position;
                            fuel = fuel - 1;
                            assert(leo_iter(pd, key, (n_before + 1) as nat) == Some(
                                (cur_nt, cur_origin),
                            ));
                        }
                    },
                    _ => {
                        walking = false;
                    },
                }
            }
        }
        if exhausted {
            proof {
                assert forall|m: nat, top: (u32, u32)|
                    m <= total && #[trigger] leo_chain(pd, key, top, m, fin) implies !leo_end(pd, top, fin) by {
                    if m < total {
                        assert(leo_iter(pd, key, m as int as nat) == Some(visited@[m as int]));
                    }
                }
            }
            return None;
        }
        if visited.len() == 0 {
            return None;
        }
        let ghost m = visited@.len();
        let ghost top = (cur_nt, cur_origin);
        proof {
            assert(leo_chain(pd, key, top, m as nat, fin)) by {
                assert forall|i: nat| #![trigger leo_iter(pd, key, i)]
                    i < m implies leo_iter(pd, key, i) is Some && leo_iter(pd, key, i)->0 != fin by {
                    assert(leo_iter(pd, key, i as int as nat) == Some(visited@[i as int]));
                }
            }
            assert(leo_ends_within(pd, key, fin, total));
            assert(visited@[0] == key) by {
                assert(leo_iter(pd, key, 0) == Some(key));
            }
        }
        let mut i: usize = 0;
        while i < visited.len()
            invariant
                self.inv(),
                self.same_tables(old(self)),
                self.predicted() == old(self).predicted(),
                self.same_chart(old(self)),
                pd == self.postdot(),
                fin == (self.grammar.spec_start(), 0u32),
                key == (nt, origin),
                visited@[0] == key,
                m == visited@.len(),
                m >= 1,
                top == (cur_nt, cur_origin),
                leo_end(pd, top, fin),
                leo_iter(pd, key, m as nat) == Some(top),
                leo_chain(pd, key, top, m as nat, fin),
                forall|j: int|
                    0 <= j < visited@.len() ==> leo_iter(pd, key, j as nat) == Some(
                        #[trigger] visited@[j],
                    ) && visited@[j] != fin,
                (cur_nt as int) < self.grammar.nonterminal_count(),
                cur_origin <= origin,
                forall|j: int|
                    0 <= j < visited@.len() ==> (#[trigger] visited@[j]).0 < self.grammar.nonterminal_count()
                        && cur_origin <= visited@[j].1 && (visited@[j].1 as int) < self.chart().len(),
                i <= visited@.len(),
                i > 0 ==> self.leo()[origin as int].contains_key(nt) && self.leo()[origin as int][nt] == top,
                forall|j: int| 0 <= j < i ==> memo_maps(self.leo(), #[trigger] visited@[j], top),
            decreases visited@.len() - i,
        {
            let (key_nt, key_origin) = visited[i];
            assert(visited@[i as int] == (key_nt, key_origin));
            let ghost before = self.leo();
            let mut column = HashMap::new();
            self.leo_items.set_and_swap(key_origin as usize, &mut column);
            column.insert(key_nt, (cur_nt, cur_origin));
            self.leo_items.set_and_swap(key_origin as usize, &mut column);
            proof {
                let after = self.leo();
                let k2 = (key_nt, key_origin);
                let steps = (m - i) as nat;
                assert(leo_chain(pd, k2, top, steps, fin)) by {
                    lemma_leo_iter_shift(pd, key, k2, i as nat, steps);
                    assert(i as nat + steps == m as nat);
                    assert forall|j: nat| #![trigger leo_iter(pd, k2, j)]
                        j < steps implies leo_iter(pd, k2, j) is Some && leo_iter(pd, k2, j)->0
                        != fin by {
                        lemma_leo_iter_shift(pd, key, k2, i as nat, j);
                        assert(leo_iter(pd, key, (i + j) as int as nat) == Some(
                            visited@[(i + j) as int],
                        ));
                    }
                }
                assert forall|kk: int, x: u32|
                    0 <= kk < after.len() && #[trigger] after[kk].contains_key(x) implies {
                    &&& (after[kk][x].0 as int) < self.grammar.nonterminal_count()
                    &&& after[kk][x].1 as int <= kk
                } by {
                    if kk != key_origin as int {
                        assert(after[kk] == before[kk]);
                    } else if x != key_nt {
                        assert(after[kk][x] == before[kk][x]);
                    }
                }
                assert forall|o: int, x: u32|
                    0 <= o < after.len() && #[trigger] after[o].contains_key(x) implies leo_end(
                    pd,
                    after[o][x],
                    fin,
                ) && exists|mm: nat| #[trigger] leo_chain(pd, (x, o as u32), after[o][x], mm, fin) by {
                    if o != key_origin as int || x != key_nt {
                        assert(before[o].contains_key(x));
                        assert(after[o][x] == before[o][x]);
                    } else {
                        assert((o as u32) == key_origin);
                        assert(leo_chain(pd, (x, o as u32), after[o][x], steps, fin));
                    }
                }
                if i > 0 {
                    if key_origin != origin || key_nt != nt {
                        assert(after[origin as int] == before[origin as int] || key_origin == origin);
                    }
                }
                assert forall|j: int| 0 <= j < i + 1 implies memo_maps(after, #[trigger] visited@[j], top) by {
                    let kj = visited@[j];
                    if j < i {
                        assert(memo_maps(before, kj, top));
                        if kj.1 != key_origin {
                            assert(after[kj.1 as int] == before[kj.1 as int]);
                        } else if kj.0 != key_nt {
                            assert(after[kj.1 as int][kj.0] == before[kj.1 as int][kj.0]);
                        }
                    }
                }
            }
            i = i + 1;
        }
        assert(leo_reaches(
            self.postdot(),
            (nt, origin),
            (cur_nt, cur_origin),
            (self.grammar.spec_start(), 0u32),
        ));
        assert(chain_memoized(self.postdot(), self.leo(), (nt, origin), top, m as nat)) by {
            assert forall|i: nat| i < m implies (#[trigger] leo_iter(self.postdot(), (nt, origin), i) matches Some(
                k,
            ) && memo_maps(self.leo(), k, top)) by {
                assert(leo_iter(pd, key, i as int as nat) == Some(visited@[i as int]));
                assert(memo_maps(self.leo(), visited@[i as int], top));
            }
        }
        Some((cur_nt, cur_origin))
    }


    /// Completes `(nt, origin)`: advances every item of column `origin` that
    /// waits on `nt`, and marks the input finished when `nt` is the start
    /// nonterminal derived from the whole input.
    fn earley_complete_one_item(&mut self, nt: u32, origin: u32, work: &mut Vec<(u32, u32)>)
        requires
            old(self).inv(),
            (nt as int) < old(self).grammar.nonterminal_count(),
            (origin as int) < old(self).chart().len(),
            keys_wf(old(self).grammar, old(work)@, old(self).chart().len() - 1),
        ensures
            final(self).inv(),
            final(self).same_tables(old(self)),
            final(self).predicted() == old(self).predicted(),
            final(self).postdot() == old(self).postdot(),
            final(self).leo() == old(self).leo(),
            final(self).extends_last_row(old(self)),
            final(self).finished_flags().len() == old(self).finished_flags().len(),
            final(self).finished_flags().take(old(self).finished_flags().len() - 1)
                == old(self).finished_flags().take(old(self).finished_flags().len() - 1),
            keys_wf(final(self).grammar, final(work)@, final(self).chart().len() - 1),
            final(work)@.len() >= old(work)@.len(),
            final(work)@.take(old(work)@.len() as int) == old(work)@,
            completed_into(
                old(self).grammar,
                old(self).postdot(),
                (nt, origin),
                Set::empty(),
                final(work)@,
                final(self).last_row(),
            ),
            (nt == old(self).grammar.spec_start() && origin == 0) ==> final(self).spec_is_finished(),
            !(nt == old(self).grammar.spec_start() && origin == 0) ==> final(self).finished_flags()
                == old(self).finished_flags(),
            forall|x: (u32, u32)| #[trigger]
                final(work)@.contains(x) ==> old(work)@.contains(x) || completion_follows(
                    old(self).grammar,
                    old(self).postdot(),
                    (nt, origin),
                    x,
                ),
            forall|j: int|
                old(self).last_row().len() <= j < final(self).last_row().len() ==> advanced_by_completion(
                    old(self).grammar,
                    old(self).postdot(),
                    (nt, origin),
                    #[trigger] final(self).last_row()[j],
                ),
    {
        let items = match self.postdot_items[origin as usize].get(&nt) {
            Some(PostDotItems::LeoEligible(it)) => vec![*it],
            Some(PostDotItems::NormalItems(v)) => copy_vec(v),
            None => Vec::new(),
        };
        let ghost pd = self.postdot();
        let ghost g = self.grammar;
        proof {
            if pd[origin as int].contains_key(nt) {
                assert(postdot_entry_wf(g, pd[origin as int][nt], nt, origin as int));
            }
        }
        let ghost start = *self;
        let ghost work0 = work@;
        assert(self.last_row().take(self.last_row().len() as int) =~= self.last_row());
        assert(work@.take(work@.len() as int) =~= work@);
        let mut i: usize = 0;
        while i < items.len()
            invariant
                self.inv(),
                self.same_except_rows(&start),
                self.extends_last_row(&start),
                start.inv(),
                g == start.grammar,
                (origin as int) < start.chart().len(),
                forall|j: int|
                    0 <= j < items@.len() ==> postdot_item_wf(start.grammar, #[trigger] items@[j], nt, origin as int),
                keys_wf(self.grammar, work@, self.chart().len() - 1),
                work@.len() >= work0.len(),
                work@.take(work0.len() as int) == work0,
                i <= items@.len(),
                forall|j: int|
                    0 <= j < i ==> if completes_on_advance(g, #[trigger] items@[j]) {
                        work@.contains((items@[j].nonterminal_id, items@[j].start_position))
                    } else {
                        self.last_row().contains(advanced_item(g, items@[j]))
                    },
                forall|x: (u32, u32)| #[trigger]
                    work@.contains(x) ==> work0.contains(x) || exists|j: int|
                        0 <= j < i && completes_on_advance(g, #[trigger] items@[j]) && x == (
                            items@[j].nonterminal_id,
                            items@[j].start_position,
                        ),
                forall|j: int|
                    start.last_row().len() <= j < self.last_row().len() ==> advanced_from_items(
                        g,
                        items@,
                        i as int,
                        #[trigger] self.last_row()[j],
                    ),
            decreases items@.len() - i,
        {
            let item = items[i];
            assert(postdot_item_wf(start.grammar, items@[i as int], nt, origin as int));
            let ghost before = *self;
            let ghost before_work = work@;
            self.advance_item(item, work);
            proof {
                assert(self.chart().take(self.chart().len() - 1) =~= start.chart().take(start.chart().len() - 1)) by {
                    assert(self.chart().take(self.chart().len() - 1) =~= before.chart().take(before.chart().len() - 1));
                }
                let a = start.last_row();
                let b = before.last_row();
                let c = self.last_row();
                assert(c.take(a.len() as int) =~= b.take(a.len() as int));
                assert(c.take(b.len() as int) =~= b);
                assert(work@.take(work0.len() as int) =~= work0) by {
                    assert(work@.take(before_work.len() as int) =~= before_work);
                    assert(before_work.take(work0.len() as int) =~= work0);
                }
                assert forall|j: int|
                    0 <= j < i + 1 implies if completes_on_advance(g, #[trigger] items@[j]) {
                        work@.contains((items@[j].nonterminal_id, items@[j].start_position))
                    } else {
                        self.last_row().contains(advanced_item(g, items@[j]))
                    } by {
                    if j < i {
                        if completes_on_advance(g, items@[j]) {
                            let key = (items@[j].nonterminal_id, items@[j].start_position);
                            let w = choose|w: int| 0 <= w < before_work.len() && before_work[w] == key;
                            assert(work@.take(before_work.len() as int)[w] == key);
                        } else {
                            lemma_prefix_contains(b, c, advanced_item(g, items@[j]));
                        }
                    }
                }
                assert forall|j: int|
                    start.last_row().len() <= j < c.len() implies advanced_from_items(
                    g,
                    items@,
                    i + 1,
                    #[trigger] c[j],
                ) by {
                    if j < b.len() {
                        assert(c[j] == b[j]);
                        assert(advanced_from_items(g, items@, i as int, b[j]));
                    } else {
                        assert(c == b.push(advanced_item(g, items@[i as int])));
                        assert(c[j] == advanced_item(g, items@[i as int]));
                    }
                }
                assert forall|x: (u32, u32)| #[trigger]
                    work@.contains(x) implies work0.contains(x) || exists|j: int|
                        0 <= j < i + 1 && completes_on_advance(g, #[trigger] items@[j]) && x == (
                            items@[j].nonterminal_id,
                            items@[j].start_position,
                        ) by {
                    if !before_work.contains(x) {
                        assert(completes_on_advance(g, items@[i as int]));
                        assert(x == (items@[i as int].nonterminal_id, items@[i as int].start_position)) by {
                            let w = choose|w: int| 0 <= w < work@.len() && work@[w] == x;
                            if w < before_work.len() {
                                assert(work@.take(before_work.len() as int)[w] == x);
                            }
                        }
                    }
                }
            }
            i = i + 1;
        }
        proof {
            if pd[origin as int].contains_key(nt) {
                match pd[origin as int][nt] {
                    PostDotItems::LeoEligible(it) => {
                        assert(items@[0] == it);
                    },
                    PostDotItems::NormalItems(v) => {
                        assert(items@ == v@);
                    },
                }
            }
            assert forall|j: int|
                start.last_row().len() <= j < self.last_row().len() implies advanced_by_completion(
                g,
                pd,
                (nt, origin),
                #[trigger] self.last_row()[j],
            ) by {
                assert(advanced_from_items(g, items@, items@.len() as int, self.last_row()[j]));
                let m = choose|m: int|
                    0 <= m < items@.len() && !completes_on_advance(g, #[trigger] items@[m])
                        && self.last_row()[j] == advanced_item(g, items@[m]);
                assert(pd[origin as int].contains_key(nt));
                match pd[origin as int][nt] {
                    PostDotItems::LeoEligible(it) => {
                        assert(items@[0] == it);
                    },
                    PostDotItems::NormalItems(v) => {
                        assert(items@ == v@);
                    },
                }
            }
            assert forall|x: (u32, u32)| #[trigger]
                work@.contains(x) implies work0.contains(x) || completion_follows(g, pd, (nt, origin), x) by {
                if !work0.contains(x) {
                    let j = choose|j: int|
                        0 <= j < items@.len() && completes_on_advance(g, #[trigger] items@[j]) && x == (
                            items@[j].nonterminal_id,
                            items@[j].start_position,
                        );
                    assert(pd[origin as int].contains_key(nt));
                    match pd[origin as int][nt] {
                        PostDotItems::LeoEligible(it) => {
                            assert(items@[0] == it);
                        },
                        PostDotItems::NormalItems(v) => {
                            assert(items@ == v@);
                        },
                    }
                }
            }
        }
        let start_nt = self.grammar.get_start_nonterminal_id();
        if nt == start_nt && origin == 0 {
            self.finished.pop();
            self.finished.push(true);
            assert(self.finished_flags().take(start.finished_flags().len() - 1) =~= start.finished_flags().take(start.finished_flags().len() - 1));
        }
    }

    /// Complete: runs the pending completions to a fixed point, each
    /// `(nonterminal, start)` once, through Leo chains where they exist.
    fn complete(&mut self, completed: Vec<(u32, u32)>)
        requires
            old(self).inv(),
            !old(self).spec_is_finished(),
            keys_wf(old(self).grammar, completed@, old(self).chart().len() - 1),
        ensures
            final(self).inv(),
            final(self).same_tables(old(self)),
            final(self).predicted() == old(self).predicted(),
            final(self).postdot() == old(self).postdot(),
            final(self).extends_last_row(old(self)),
            final(self).finished_flags().len() == old(self).finished_flags().len(),
            final(self).finished_flags().take(old(self).finished_flags().len() - 1)
                == old(self).finished_flags().take(old(self).finished_flags().len() - 1),
            exists|done: Set<(u32, u32)>|
                #[trigger] completion_fixpoint(
                    old(self).grammar,
                    old(self).postdot(),
                    completed@,
                    done,
                    final(self).last_row(),
                    (old(self).grammar.spec_start(), 0u32),
                    final(self).spec_is_finished(),
                ) && forall|j: int|
                    old(self).last_row().len() <= j < final(self).last_row().len() ==> advanced_by_some(
                        old(self).grammar,
                        old(self).postdot(),
                        done,
                        #[trigger] final(self).last_row()[j],
                    ),
    {
        let k = self.earley_sets.len() - 1;
        let ghost start = *self;
        let ghost g = self.grammar;
        let ghost pd = self.postdot();
        let ghost fin = (g.spec_start(), 0u32);
        let ghost bound: int = (k as int + 1) * (STATE_WORD_RANGE as int);
        let ghost mut carried: Set<(u32, u32)> = Set::empty();
        assert(self.last_row().take(self.last_row().len() as int) =~= self.last_row());
        let mut work = completed;
        let mut done: HashSet<u64> = HashSet::new();
        while work.len() > 0
            invariant
                self.inv(),
                self.same_tables(&start),
                self.predicted() == start.predicted(),
                self.postdot() == start.postdot(),
                g == self.grammar,
                pd == self.postdot(),
                fin == (g.spec_start(), 0u32),
                self.extends_last_row(&start),
                self.finished_flags().len() == start.finished_flags().len(),
                self.finished_flags().take(start.finished_flags().len() - 1)
                    == start.finished_flags().take(start.finished_flags().len() - 1),
                k == self.chart().len() - 1,
                k == start.chart().len() - 1,
                bound == (k as int + 1) * (STATE_WORD_RANGE as int),
                keys_wf(self.grammar, work@, k as int),
                done@.finite(),
                forall|x: u64| done@.contains(x) ==> (x as int) < bound,
                done@.len() <= bound,
                forall|x: (u32, u32)| #[trigger]
                    completed@.contains(x) ==> carried.contains(x) || work@.contains(x),
                forall|x: (u32, u32)| #[trigger]
                    carried.contains(x) ==> completed_into(g, pd, x, carried, work@, self.last_row()),
                forall|x: (u32, u32)| #[trigger] done@.contains(key_code(x)) ==> carried.contains(x),
                self.spec_is_finished() <==> carried.contains(fin),
                forall|j: int|
                    start.last_row().len() <= j < self.last_row().len() ==> advanced_by_some(
                        g,
                        pd,
                        carried,
                        #[trigger] self.last_row()[j],
                    ),
                forall|ks: Set<(u32, u32)>|
                    #[trigger] keys_closed(g, pd, ks) && (forall|x: (u32, u32)|
                        completed@.contains(x) ==> ks.contains(x)) ==> carried.subset_of(ks) && (forall|
                        x: (u32, u32),
                    | work@.contains(x) ==> ks.contains(x)),
            decreases bound - done@.len(), work@.len(),
        {
            let ghost work_before = work@;
            let key = work.pop().unwrap();
            let nt = key.0;
            let origin = key.1;
            assert(work_before == work@.push(key));
            assert(keys_wf(self.grammar, work@.push(key), k as int));
            assert(work@.push(key)[work@.len() as int] == key);
            assert(nt < self.grammar.nonterminal_count() && origin <= k);
            proof {
                assert((origin as int) * (STATE_WORD_RANGE as int) + (nt as int) < bound)
                    by (nonlinear_arith)
                    requires
                        (origin as int) <= k as int,
                        (nt as int) < STATE_WORD_RANGE as int,
                        bound == (k as int + 1) * (STATE_WORD_RANGE as int),
                ;
                assert((k as int + 1) * (STATE_WORD_RANGE as int) <= u64::MAX) by (nonlinear_arith)
                    requires
                        (k as int) < u32::MAX,
                ;
            }
            let code = origin as u64 * STATE_WORD_RANGE + nt as u64;
            assert(code == key_code(key));
            let ghost done_before = done@;
            let ghost carried_before = carried;
            let ghost row_before = self.last_row();
            if done.insert(code) {
                proof {
                    lemma_u64_set_bounded(done@, bound);
                }
                let ghost before = *self;
                let top = self.try_leo_complete_item(nt, origin);
                let ghost mid = *self;
                let ghost work_mid = work@;
                match top {
                    Some(t) => self.earley_complete_one_item(t.0, t.1, &mut work),
                    None => self.earley_complete_one_item(nt, origin, &mut work),
                }
                proof {
                    assert(self.chart().take(self.chart().len() - 1) =~= start.chart().take(start.chart().len() - 1)) by {
                        assert(self.chart().take(self.chart().len() - 1) =~= mid.chart().take(mid.chart().len() - 1));
                        assert(mid.chart() == before.chart());
                    }
                    let a = start.last_row();
                    let b = before.last_row();
                    let c = self.last_row();
                    assert(mid.last_row() == b);
                    assert(c.take(a.len() as int) =~= b.take(a.len() as int));
                    assert(c.take(b.len() as int) =~= b);
                    assert(c.take(c.len() as int) =~= c);
                    match top {
                        Some(t) => {
                            assert(completed_into(g, pd, (t.0, t.1), Set::empty(), work@, c));
                        },
                        None => {
                            assert(completed_into(g, pd, (nt, origin), Set::empty(), work@, c));
                        },
                    }
                    assert(self.finished_flags().take(start.finished_flags().len() - 1)
                        =~= start.finished_flags().take(start.finished_flags().len() - 1)) by {
                        assert(self.finished_flags().take(start.finished_flags().len() - 1)
                            =~= mid.finished_flags().take(start.finished_flags().len() - 1));
                    }
                    let added: Set<(u32, u32)> = match top {
                        Some(t) => {
                            let m = choose|m: nat| #[trigger] leo_chain(pd, key, t, m, fin);
                            Set::new(
                                |x: (u32, u32)|
                                    exists|i: nat| i < m && #[trigger] leo_iter(pd, key, i) == Some(x),
                            ).insert(t)
                        },
                        None => set![key],
                    };
                    let new_carried = carried_before.union(added);
                    let w = work@;
                    assert(w.take(work_mid.len() as int) =~= work_mid);
                    assert(added.contains(key)) by {
                        if let Some(t) = top {
                            let m = choose|m: nat| #[trigger] leo_chain(pd, key, t, m, fin);
                            assert(leo_iter(pd, key, 0) == Some(key));
                        }
                    }
                    assert forall|x: (u32, u32)|
                        carried_before.contains(x) || work_before.contains(x) implies new_carried.contains(x)
                        || w.contains(x) by {
                        if work_before.contains(x) && x != key {
                            let j = choose|j: int| 0 <= j < work_before.len() && work_before[j] == x;
                            assert(j < work_mid.len());
                            assert(work_mid[j] == x);
                            assert(w.take(work_mid.len() as int)[j] == x);
                        }
                    }
                    assert forall|x: (u32, u32)| #[trigger]
                        new_carried.contains(x) implies completed_into(g, pd, x, new_carried, w, c) by {
                        if carried_before.contains(x) {
                            lemma_completed_into_grows(
                                g,
                                pd,
                                x,
                                carried_before,
                                work_before,
                                row_before,
                                new_carried,
                                w,
                                c,
                            );
                        } else {
                            match top {
                                Some(t) => {
                                    let m = choose|m: nat| #[trigger] leo_chain(pd, key, t, m, fin);
                                    if x == t {
                                        lemma_completed_into_grows(
                                            g,
                                            pd,
                                            x,
                                            Set::empty(),
                                            w,
                                            c,
                                            new_carried,
                                            w,
                                            c,
                                        );
                                    } else {
                                        let i = choose|i: nat|
                                            i < m && #[trigger] leo_iter(pd, key, i) == Some(x);
                                        assert(leo_iter(pd, key, i + 1) == leo_next(pd, x));
                                        if i + 1 < m {
                                            assert(leo_iter(pd, key, i + 1) is Some);
                                            let y = leo_iter(pd, key, i + 1)->0;
                                            assert(added.contains(y));
                                        } else {
                                            assert(leo_iter(pd, key, m) == Some(t));
                                        }
                                    }
                                },
                                None => {
                                    lemma_completed_into_grows(
                                        g,
                                        pd,
                                        x,
                                        Set::empty(),
                                        w,
                                        c,
                                        new_carried,
                                        w,
                                        c,
                                    );
                                },
                            }
                        }
                    }
                    assert forall|x: (u32, u32)| #[trigger]
                        completed@.contains(x) implies new_carried.contains(x) || w.contains(x) by {
                        assert(carried_before.contains(x) || work_before.contains(x));
                    }
                    assert forall|x: (u32, u32)| #[trigger]
                        done@.contains(key_code(x)) implies new_carried.contains(x) by {
                        if key_code(x) != code {
                            assert(done_before.contains(key_code(x)));
                        } else {
                            assert(x == key) by {
                                assert(key_code(x) == key_code(key));
                                assert((x.1 as int) * (STATE_WORD_RANGE as int) + x.0 as int
                                    == (key.1 as int) * (STATE_WORD_RANGE as int) + key.0 as int)
                                    by (nonlinear_arith)
                                    requires
                                        key_code(x) == key_code(key),
                                        (x.0 as int) < STATE_WORD_RANGE as int,
                                        (key.0 as int) < STATE_WORD_RANGE as int,
                                        (x.1 as int) < STATE_WORD_RANGE as int,
                                        (key.1 as int) < STATE_WORD_RANGE as int,
                                ;
                                assert(x.1 == key.1 && x.0 == key.0) by (nonlinear_arith)
                                    requires
                                        (x.1 as int) * (STATE_WORD_RANGE as int) + x.0 as int
                                            == (key.1 as int) * (STATE_WORD_RANGE as int) + key.0 as int,
                                        (x.0 as int) < STATE_WORD_RANGE as int,
                                        (key.0 as int) < STATE_WORD_RANGE as int,
                                        0 <= x.0,
                                        0 <= key.0,
                                ;
                            }
                        }
                    }
                    match top {
                        Some(t) => {
                            let m = choose|m: nat| #[trigger] leo_chain(pd, key, t, m, fin);
                            if added.contains(fin) && fin != t {
                                let i = choose|i: nat| i < m && #[trigger] leo_iter(pd, key, i) == Some(fin);
                                assert(leo_iter(pd, key, i) is Some && leo_iter(pd, key, i)->0 != fin);
                            }
                        },
                        None => {},
                    }
                    assert(self.spec_is_finished() <==> new_carried.contains(fin));
                    assert forall|j: int|
                        start.last_row().len() <= j < c.len() implies advanced_by_some(
                        g,
                        pd,
                        new_carried,
                        #[trigger] c[j],
                    ) by {
                        if j < b.len() {
                            assert(c[j] == row_before[j]);
                            assert(advanced_by_some(g, pd, carried_before, row_before[j]));
                            let kk = choose|kk: (u32, u32)|
                                #[trigger] carried_before.contains(kk) && advanced_by_completion(
                                    g,
                                    pd,
                                    kk,
                                    row_before[j],
                                );
                            assert(new_carried.contains(kk));
                        } else {
                            match top {
                                Some(t) => {
                                    assert(advanced_by_completion(g, pd, (t.0, t.1), c[j]));
                                    assert(new_carried.contains((t.0, t.1)));
                                },
                                None => {
                                    assert(advanced_by_completion(g, pd, (nt, origin), c[j]));
                                    assert(new_carried.contains((nt, origin)));
                                },
                            }
                        }
                    }
                    assert forall|ks: Set<(u32, u32)>|
                        #[trigger] keys_closed(g, pd, ks) && (forall|x: (u32, u32)|
                            completed@.contains(x) ==> ks.contains(x)) implies new_carried.subset_of(ks)
                        && (forall|x: (u32, u32)| w.contains(x) ==> ks.contains(x)) by {
                        assert(carried_before.subset_of(ks));
                        assert(work_before.contains(key));
                        assert(ks.contains(key));
                        let tt: (u32, u32) = match top {
                            Some(t) => t,
                            None => key,
                        };
                        match top {
                            Some(t) => {
                                let m = choose|m: nat| #[trigger] leo_chain(pd, key, t, m, fin);
                                lemma_leo_iter_closed(g, pd, ks, key, m);
                                assert forall|x: (u32, u32)| added.contains(x) implies ks.contains(x) by {
                                    if x != t {
                                        let i = choose|i: nat|
                                            i < m && #[trigger] leo_iter(pd, key, i) == Some(x);
                                        lemma_leo_iter_closed(g, pd, ks, key, i);
                                    }
                                }
                            },
                            None => {},
                        }
                        assert(ks.contains(tt));
                        assert forall|x: (u32, u32)| w.contains(x) implies ks.contains(x) by {
                            if !work_mid.contains(x) {
                                assert(completion_follows(g, pd, tt, x));
                            } else {
                                let j = choose|j: int| 0 <= j < work_mid.len() && work_mid[j] == x;
                                assert(work_before[j] == x);
                            }
                        }
                    }
                    carried = new_carried;
                }
            } else {
                proof {
                    assert(carried.contains(key));
                    assert forall|x: (u32, u32)|
                        carried.contains(x) || work_before.contains(x) implies carried.contains(x)
                        || work@.contains(x) by {
                        if work_before.contains(x) && x != key {
                            let j = choose|j: int| 0 <= j < work_before.len() && work_before[j] == x;
                            assert(work@[j] == x);
                        }
                    }
                    assert(self.last_row().take(row_before.len() as int) =~= row_before);
                    assert forall|x: (u32, u32)| #[trigger]
                        carried.contains(x) implies completed_into(g, pd, x, carried, work@, self.last_row()) by {
                        lemma_completed_into_grows(
                            g,
                            pd,
                            x,
                            carried,
                            work_before,
                            row_before,
                            carried,
                            work@,
                            self.last_row(),
                        );
                    }
                    assert forall|x: (u32, u32)| #[trigger]
                        completed@.contains(x) implies carried.contains(x) || work@.contains(x) by {
                        assert(carried.contains(x) || work_before.contains(x));
                    }
                    assert forall|ks: Set<(u32, u32)>|
                        #[trigger] keys_closed(g, pd, ks) && (forall|x: (u32, u32)|
                            completed@.contains(x) ==> ks.contains(x)) implies carried.subset_of(ks) && (
                        forall|x: (u32, u32)| work@.contains(x) ==> ks.contains(x)) by {
                        assert forall|x: (u32, u32)| work@.contains(x) implies ks.contains(x) by {
                            let j = choose|j: int| 0 <= j < work@.len() && work@[j] == x;
                            assert(work_before[j] == x);
                        }
                    }
                }
            }
        }
        proof {
            assert forall|x: (u32, u32)| #[trigger]
                carried.contains(x) implies completed_into(g, pd, x, carried, Seq::empty(), self.last_row()) by {
                assert(work@ =~= Seq::<(u32, u32)>::empty());
            }
            assert(completion_fixpoint(g, pd, completed@, carried, self.last_row(), fin, self.spec_is_finished()));
            assert(start.postdot() == old(self).postdot());
        }
    }

    /// Feeds one byte: Scan, Complete, Predict and the postdot update, as one
    /// step. A rejected byte leaves the chart as it was.
    #[verifier::rlimit(60)]
    fn accept_byte(&mut self, byte: u8) -> (r: Result<(), AcceptTokenError>)
        requires
            old(self).wf(),
        ensures
            final(self).wf(),
            final(self).same_tables(old(self)),
            r is Ok <==> (!old(self).spec_is_finished() && old(self).chart().len() < u32::MAX
                && row_scans(old(self).spec_grammar(), old(self).last_row(), byte)),
            r is Ok ==> final(self).chart().len() == old(self).chart().len() + 1
                && final(self).keeps_prefix(old(self), old(self).chart().len() as int),
            r is Ok ==> forall|j: int|
                0 <= j < old(self).last_row().len() ==> scanned_into(
                    old(self).spec_grammar(),
                    #[trigger] old(self).last_row()[j],
                    byte,
                    final(self).last_row(),
                ),
            r is Ok ==> predict_closed(
                final(self).spec_grammar(),
                final(self).last_row(),
                final(self).chart().len() - 1,
            ),
            r is Ok ==> exists|done: Set<(u32, u32)>|
                #[trigger] completed_step(
                    old(self).spec_grammar(),
                    old(self).postdot(),
                    old(self).last_row(),
                    byte,
                    done,
                    final(self).last_row(),
                    (old(self).spec_grammar().spec_start(), 0u32),
                    final(self).spec_is_finished(),
                ) && rows_justified(
                    old(self).spec_grammar(),
                    old(self).postdot(),
                    old(self).last_row(),
                    byte,
                    done,
                    old(self).chart().len() as int,
                    final(self).last_row(),
                ),
            r is Ok ==> old(self).byte_step(byte, *final(self)),
            r is Err ==> r == Err::<(), _>(AcceptTokenError::Rejected) && final(self).same_chart(
                old(self),
            ),
    {
        let len = self.earley_sets.len();
        if self.finished[len - 1] {
            return Err(AcceptTokenError::Rejected);
        }
        if len >= u32::MAX as usize {
            return Err(AcceptTokenError::Rejected);
        }
        let mut completed: Vec<(u32, u32)> = Vec::new();
        self.scan(byte, &mut completed);
        if self.earley_sets.row_len(len) == 0 && completed.len() == 0 {
            self.revert_change(len);
            proof {
                assert(self.postdot() =~= old(self).postdot());
                assert(self.finished_flags() =~= old(self).finished_flags());
            }
            return Err(AcceptTokenError::Rejected);
        }
        let ghost scanned = *self;
        let ghost initial = completed@;
        self.complete(completed);
        let ghost completed_state = *self;
        proof {
            let n = len as int;
            let g = self.grammar;
            assert forall|kk: int| 0 <= kk < n implies index_exact(
                g,
                #[trigger] self.chart()[kk],
                self.postdot()[kk],
            ) by {
                assert(self.chart()[kk] == self.chart().take(n)[kk]);
                assert(scanned.chart()[kk] == scanned.chart().take(n)[kk]);
                assert(self.chart().take(n) == scanned.chart().take(n));
                assert(scanned.chart().take(n)[kk] == old(self).chart()[kk]);
                assert(self.postdot()[kk] == old(self).postdot()[kk]);
                assert(index_exact(g, old(self).chart()[kk], old(self).postdot()[kk]));
            }
        }
        self.predict();
        let ghost predicted_state = *self;
        self.update_postdot_items();
        proof {
            let g = old(self).spec_grammar();
            let fin = (g.spec_start(), 0u32);
            let done = choose|done: Set<(u32, u32)>|
                #[trigger] completion_fixpoint(
                    g,
                    scanned.postdot(),
                    initial,
                    done,
                    completed_state.last_row(),
                    fin,
                    completed_state.spec_is_finished(),
                ) && forall|j: int|
                    scanned.last_row().len() <= j < completed_state.last_row().len() ==> advanced_by_some(
                        g,
                        scanned.postdot(),
                        done,
                        #[trigger] completed_state.last_row()[j],
                    );
            let crow = completed_state.last_row();
            let frow = self.last_row();
            assert(frow.take(crow.len() as int) =~= crow) by {
                assert(predicted_state.last_row() == frow);
            }
            assert(scanned.postdot() == old(self).postdot().push(Map::empty()));
            assert forall|x: (u32, u32)| #[trigger] done.contains(x) implies completed_into(
                g,
                old(self).postdot(),
                x,
                done,
                Seq::empty(),
                frow,
            ) by {
                lemma_completed_into_drop_column(
                    g,
                    old(self).postdot(),
                    Map::empty(),
                    x,
                    done,
                    Seq::empty(),
                    crow,
                );
                lemma_completed_into_grows(
                    g,
                    old(self).postdot(),
                    x,
                    done,
                    Seq::empty(),
                    crow,
                    done,
                    Seq::empty(),
                    frow,
                );
            }
            assert forall|j: int|
                0 <= j < old(self).last_row().len() && scan_advances(g, #[trigger] old(self).last_row()[j], byte)
                    && completes_on_advance(g, old(self).last_row()[j]) implies done.contains(
                (old(self).last_row()[j].nonterminal_id, old(self).last_row()[j].start_position),
            ) by {
                assert(scan_done(g, old(self).last_row()[j], byte, scanned.last_row(), initial));
            }
            assert(self.spec_is_finished() == completed_state.spec_is_finished());
            assert forall|ks: Set<(u32, u32)>|
                #[trigger] keys_closed(g, old(self).postdot(), ks) && (forall|j: int|
                    0 <= j < old(self).last_row().len() && scan_advances(
                        g,
                        #[trigger] old(self).last_row()[j],
                        byte,
                    ) && completes_on_advance(g, old(self).last_row()[j]) ==> ks.contains(
                        (old(self).last_row()[j].nonterminal_id, old(self).last_row()[j].start_position),
                    )) implies done.subset_of(ks) by {
                lemma_keys_closed_push_empty(g, old(self).postdot(), ks);
                assert(keys_closed(g, scanned.postdot(), ks));
                assert forall|x: (u32, u32)| initial.contains(x) implies ks.contains(x) by {
                    let j = choose|j: int|
                        0 <= j < old(self).last_row().len() && scan_advances(
                            g,
                            #[trigger] old(self).last_row()[j],
                            byte,
                        ) && completes_on_advance(g, old(self).last_row()[j]) && x == (
                            old(self).last_row()[j].nonterminal_id,
                            old(self).last_row()[j].start_position,
                        );
                }
            }
            assert(completed_step(
                g,
                old(self).postdot(),
                old(self).last_row(),
                byte,
                done,
                frow,
                fin,
                self.spec_is_finished(),
            ));
            let srow = scanned.last_row();
            let kk = old(self).chart().len() as int;
            assert(frow.take(srow.len() as int) =~= srow) by {
                assert(completed_state.last_row().take(srow.len() as int) =~= srow);
                assert(frow.take(crow.len() as int) =~= crow);
                assert(frow.take(srow.len() as int) =~= crow.take(srow.len() as int));
            }
            assert forall|j: int| 0 <= j < frow.len() implies item_justified(
                g,
                old(self).postdot(),
                old(self).last_row(),
                byte,
                done,
                kk,
                frow.take(j),
                #[trigger] frow[j],
            ) by {
                if j < srow.len() {
                    assert(frow[j] == frow.take(srow.len() as int)[j]);
                    assert(scanned_from(g, old(self).last_row(), byte, srow[j]));
                } else if j < crow.len() {
                    assert(frow[j] == frow.take(crow.len() as int)[j]);
                    assert(advanced_by_some(g, scanned.postdot(), done, crow[j]));
                    let key = choose|key: (u32, u32)|
                        #[trigger] done.contains(key) && advanced_by_completion(
                            g,
                            scanned.postdot(),
                            key,
                            crow[j],
                        );
                    if (key.1 as int) < old(self).postdot().len() {
                        assert(scanned.postdot()[key.1 as int] == old(self).postdot()[key.1 as int]);
                        assert(advanced_by_completion(g, old(self).postdot(), key, frow[j]));
                    } else {
                        assert(scanned.postdot()[key.1 as int] == Map::<u32, PostDotItems>::empty());
                    }
                } else {
                    assert(predicted_at(g, frow, j, kk));
                    let i = choose|i: int|
                        0 <= i < j && item_node(g, #[trigger] frow[i]) == Node::Nonterminal(
                            frow[j].nonterminal_id,
                        );
                    assert(frow.take(j)[i] == frow[i]);
                }
            }
        }
        proof {
            let n = len as int;
            let srow = scanned.last_row();
            let frow = self.last_row();
            assert(frow.take(srow.len() as int) =~= srow) by {
                assert(completed_state.last_row().take(srow.len() as int) =~= srow);
                assert(frow.take(completed_state.last_row().len() as int) =~= completed_state.last_row());
                assert(frow.take(srow.len() as int) =~= completed_state.last_row().take(srow.len() as int));
            }
            assert forall|j: int| 0 <= j < old(self).last_row().len() implies scanned_into(
                old(self).spec_grammar(),
                #[trigger] old(self).last_row()[j],
                byte,
                frow,
            ) by {
                let it = old(self).last_row()[j];
                let g = old(self).spec_grammar();
                if let Some(m) = scan_moved(g, it, byte) {
                    lemma_prefix_contains(srow, frow, m);
                }
                if scan_advances(g, it, byte) && !completes_on_advance(g, it) {
                    lemma_prefix_contains(srow, frow, advanced_item(g, it));
                }
            }
            assert(self.chart().take(n) =~= old(self).chart().take(n)) by {
                assert(self.chart().take(n) =~= scanned.chart().take(n));
                assert(scanned.chart().take(n) =~= old(self).chart());
                assert(old(self).chart().take(n) =~= old(self).chart());
            }
            assert(self.postdot().take(n) =~= old(self).postdot().take(n)) by {
                assert(scanned.postdot().take(n) =~= old(self).postdot());
                assert(self.postdot().take(n) =~= predicted_state.postdot().take(n));
            }
            assert(self.finished_flags().take(n) =~= old(self).finished_flags().take(n)) by {
                assert(scanned.finished_flags().take(n) =~= old(self).finished_flags());
                assert(completed_state.finished_flags().take(n) =~= scanned.finished_flags().take(n));
            }
        }
        Ok(())
    }

    /// The bytes that may begin the next token: a superset of the bytes that
    /// some item of the last Earley set scans.
    pub closed spec fn first_bytes(&self) -> Set<int> {
        bitset_ones(self.allowed_first_bytes)
    }

    /// This requires the last Earley set to have been created and fully predicted.
    fn update_allowed_first_bytes(&mut self)
        requires
            old(self).wf(),
        ensures
            final(self).wf(),
            final(self).same_chart(old(self)),
            final(self).grammar == old(self).grammar,
            final(self).vocabulary == old(self).vocabulary,
            final(self).allowed_token_ids == old(self).allowed_token_ids,
            final(self).config == old(self).config,
            forall|b: int|
                0 <= b < 256 && row_scans(final(self).grammar, final(self).last_row(), b as u8)
                    ==> #[trigger] final(self).first_bytes().contains(b),
            final(self).first_bytes() == row_hints(
                final(self).grammar,
                final(self).last_row(),
                final(self).last_row().len() as int,
            ),
    {
        self.allowed_first_bytes.clear();
        let k = self.earley_sets.len() - 1;
        let n = self.earley_sets.row_len(k);
        let ghost g = self.grammar;
        let ghost row = self.last_row();
        let mut i: usize = 0;
        while i < n
            invariant
                self.inv(),
                self.predicted() == Set::<int>::empty(),
                self.same_chart(old(self)),
                self.grammar == old(self).grammar,
                self.vocabulary == old(self).vocabulary,
                self.allowed_token_ids == old(self).allowed_token_ids,
                self.config == old(self).config,
                g == self.grammar,
                row == self.last_row(),
                k == self.chart().len() - 1,
                n == row.len(),
                i <= n,
                forall|j: int, b: int|
                    0 <= j < i && 0 <= b < 256 && scans(g, #[trigger] row[j], b as u8)
                        ==> #[trigger] self.first_bytes().contains(b),
                self.first_bytes() == row_hints(g, row, i as int),
            decreases n - i,
        {
            let item = self.earley_sets.get(k, i);
            assert(item == row[i as int]);
            assert(item_wf(g, item, k as int));
            let ghost before = self.first_bytes();
            let node = self.grammar.get_node(
                item.nonterminal_id,
                item.production_index,
                item.dot_position,
            );
            assert(node_valid(
                g.spec_rules(),
                g.spec_terminals(),
                g.spec_regexes(),
                g.spec_excepteds(),
                g.spec_rules()[item.nonterminal_id as int]@[item.production_index as int]@[item.dot_position as int],
            ));
            assert(node_fits(g, g.spec_node(item.nonterminal_id as int, item.production_index as int, item.dot_position as int)));
            match node {
                Node::Terminal(t) => {
                    let byte = self.grammar.get_terminal(t)[item.state_id as usize];
                    self.allowed_first_bytes.insert(byte as usize);
                },
                Node::RegexString(x) => {
                    assert(g.spec_regexes()[x as int].wf());
                    let fsa = self.grammar.get_regex(x);
                    if item.state_id == fsa.start {
                        self.allowed_first_bytes.union_with(self.grammar.get_first_bytes_from_regex(x));
                    } else {
                        insert_viable_bytes(fsa, item.state_id, &mut self.allowed_first_bytes);
                    }
                },
                Node::Except(e, reps) => {
                    assert(g.spec_excepteds()[e as int].wf());
                    assert(g.spec_excepteds()[e as int].state_count() <= u32::MAX);
                    let fsa = self.grammar.get_excepted(e);
                    let count = fsa.statuses.len() as u32;
                    let s = match reps {
                        None => item.state_id,
                        Some(_) => item.state_id % count,
                    };
                    if s == fsa.start {
                        self.allowed_first_bytes.union_with(self.grammar.get_first_bytes_from_excepted(e));
                    } else {
                        insert_viable_bytes(fsa, s, &mut self.allowed_first_bytes);
                    }
                },
                Node::Nonterminal(_) => {},
            }
            proof {
                let hint = item_hint(g, item);
                match node {
                    Node::RegexString(x) => {
                        let f = g.spec_regexes()[x as int];
                        if item.state_id == f.start {
                            assert(f.first_bytes() =~= viable_bytes(f, item.state_id as int));
                        }
                    },
                    Node::Except(e, reps) => {
                        let f = g.spec_excepteds()[e as int];
                        if excepted_dfa_state(f, reps, item.state_id) == f.start as int {
                            assert(f.first_bytes() =~= viable_bytes(f, f.start as int));
                        }
                    },
                    Node::Terminal(t) => {},
                    Node::Nonterminal(_) => {
                        assert(hint =~= Set::<int>::empty());
                    },
                }
                assert(self.first_bytes() =~= before.union(hint));
                assert(self.first_bytes() =~= row_hints(g, row, i + 1)) by {
                    assert forall|b: int| #[trigger] self.first_bytes().contains(b) <==> row_hints(g, row, i + 1).contains(b) by {
                        if before.contains(b) {
                            let j = choose|j: int| 0 <= j < i && #[trigger] item_hint(g, row[j]).contains(b);
                        }
                        if row_hints(g, row, i + 1).contains(b) {
                            let j = choose|j: int| 0 <= j < i + 1 && #[trigger] item_hint(g, row[j]).contains(b);
                            if j < i {
                                assert(row_hints(g, row, i as int).contains(b));
                            }
                        }
                    }
                }
                assert forall|j: int, b: int|
                    0 <= j < i + 1 && 0 <= b < 256 && scans(g, #[trigger] row[j], b as u8)
                    implies #[trigger] self.first_bytes().contains(b) by {
                    if j < i {
                        assert(before.contains(b));
                    } else {
                        assert((b as u8) as int == b);
                    }
                }
            }
            i = i + 1;
        }
    }

    /// Clears the chart and reseeds the first Earley set with the full
    /// prediction of the start nonterminal.
    pub fn reset(&mut self)
        requires
            old(self).wf(),
        ensures
            final(self).wf(),
            final(self).spec_grammar() == old(self).spec_grammar(),
            final(self).spec_vocabulary() == old(self).spec_vocabulary(),
            final(self).chart().len() == 1,
            has_predictions(
                final(self).spec_grammar(),
                final(self).chart()[0],
                final(self).spec_grammar().spec_start(),
                0,
            ),
            !final(self).spec_is_finished(),
            final(self).allowed() == Set::<int>::empty(),
            initial_justified(
                final(self).spec_grammar(),
                final(self).chart()[0],
                final(self).spec_grammar().spec_start(),
            ),
            final(self).leo() == seq![Map::<u32, (u32, u32)>::empty()],
            final(self).spec_config() == old(self).spec_config(),
    {
        self.earley_sets.clear();
        self.postdot_items.clear();
        self.finished.clear();
        self.leo_items.clear();
        self.already_predicted_nonterminals.clear();
        self.allowed_token_ids.clear();
        self.allowed_first_bytes.clear();
        self.earley_sets.new_row();
        self.postdot_items.push(HashMap::new());
        self.finished.push(false);
        self.leo_items.push(HashMap::new());
        proof {
            let rows = self.chart();
            assert(rows =~= seq![Seq::<EarleyItem>::empty()]);
            assert(rows[0].no_duplicates());
            assert(self.postdot() =~= seq![Map::<u32, PostDotItems>::empty()]);
            assert(self.leo() =~= seq![Map::<u32, (u32, u32)>::empty()]);
        }
        let start = self.grammar.get_start_nonterminal_id();
        self.predict_nonterminal(start);
        let ghost seeded = self.last_row();
        self.predict();
        proof {
            let g = self.grammar;
            let row = self.last_row();
            assert(row.take(seeded.len() as int) =~= seeded);
            lemma_prefix_has_predictions(g, seeded, row, start, 0);
            assert forall|j: int| 0 <= j < row.len() implies {
                let it = #[trigger] row[j];
                ||| (it.nonterminal_id == start && (it.production_index as int) < g.production_count(
                    start as int,
                ) && it == predicted_item(g, start, it.production_index as int, 0))
                ||| predicted_at(g, row, j, 0)
            } by {
                if j < seeded.len() {
                    assert(row[j] == seeded[j]);
                }
            }
        }
        self.update_postdot_items();
        assert(self.leo() =~= seq![Map::<u32, (u32, u32)>::empty()]);
        assert(self.finished_flags() =~= seq![false]);
    }

    fn validate_ts_size_for_terminals(grammar: &Grammar) -> (r: Result<(), EngineBaseError>)
        requires
            grammar.wf(),
        ensures
            r is Ok <==> forall|t: int|
                0 <= t < grammar.spec_terminals().len() ==> #[trigger] grammar.spec_terminals()[t]@.len()
                    <= u32::MAX,
            r matches Err(e) ==> match e {
                EngineBaseError::TerminalTooLong(len, max) => len > max && max == u32::MAX && exists|
                    t: int,
                |
                    0 <= t < grammar.spec_terminals().len() && #[trigger] grammar.spec_terminals()[t]@.len()
                        == len as int && forall|u: int|
                        0 <= u < t ==> #[trigger] grammar.spec_terminals()[u]@.len() <= u32::MAX,
                _ => false,
            },
    {
        let count = grammar.get_terminals_size();
        let mut t: usize = 0;
        while t < count
            invariant
                grammar.wf(),
                count == grammar.spec_terminals().len(),
                t <= count,
                forall|u: int| 0 <= u < t ==> #[trigger] grammar.spec_terminals()[u]@.len() <= u32::MAX,
            decreases count - t,
        {
            let len = grammar.get_terminal(t as u32).len();
            if len > u32::MAX as usize {
                assert(grammar.spec_terminals()[t as int]@.len() == len);
                return Err(EngineBaseError::TerminalTooLong(len, u32::MAX as usize));
            }
            t = t + 1;
        }
        Ok(())
    }

    fn validate_ts_size_for_regexes(grammar: &Grammar) -> (r: Result<(), EngineBaseError>)
        requires
            grammar.wf(),
        ensures
            r is Ok <==> forall|x: int|
                0 <= x < grammar.spec_regexes().len() ==> #[trigger] grammar.spec_regexes()[x].state_count()
                    <= u32::MAX,
            r matches Err(e) ==> match e {
                EngineBaseError::RegexTooLarge(count, max) => count > max && max == u32::MAX && exists|
                    x: int,
                |
                    0 <= x < grammar.spec_regexes().len() && #[trigger] grammar.spec_regexes()[x].state_count()
                        == count as int && forall|u: int|
                        0 <= u < x ==> #[trigger] grammar.spec_regexes()[u].state_count() <= u32::MAX,
                _ => false,
            },
    {
        let count = grammar.get_regexes_size();
        let mut x: usize = 0;
        while x < count
            invariant
                grammar.wf(),
                count == grammar.spec_regexes().len(),
                x <= count,
                forall|u: int| 0 <= u < x ==> #[trigger] grammar.spec_regexes()[u].state_count() <= u32::MAX,
            decreases count - x,
        {
            let len = grammar.get_regex(x as u32).statuses.len();
            if len > u32::MAX as usize {
                assert(grammar.spec_regexes()[x as int].state_count() == len);
                return Err(EngineBaseError::RegexTooLarge(len, u32::MAX as usize));
            }
            x = x + 1;
        }
        Ok(())
    }

    fn validate_ts_size_for_excepted(grammar: &Grammar) -> (r: Result<(), EngineBaseError>)
        requires
            grammar.wf(),
        ensures
            r is Ok <==> forall|n: int, p: int, d: int|
                0 <= n < grammar.nonterminal_count() && 0 <= p < grammar.production_count(n) && 0 <= d
                    < grammar.production_len(n, p) ==> node_fits(
                    *grammar,
                    #[trigger] grammar.spec_node(n, p, d),
                ),
            r matches Err(e) ==> exists|n: int, p: int, d: int|
                0 <= n < grammar.nonterminal_count() && 0 <= p < grammar.production_count(n) && 0 <= d
                    < grammar.production_len(n, p) && excepted_error(
                    *grammar,
                    #[trigger] grammar.spec_node(n, p, d),
                    e,
                ),
    {
        let nts = grammar.get_nonterminals_size();
        let mut n: usize = 0;
        while n < nts
            invariant
                grammar.wf(),
                nts == grammar.nonterminal_count(),
                n <= nts,
                forall|m: int, p: int, d: int|
                    0 <= m < n && 0 <= p < grammar.production_count(m) && 0 <= d
                        < grammar.production_len(m, p) ==> node_fits(
                        *grammar,
                        #[trigger] grammar.spec_node(m, p, d),
                    ),
            decreases nts - n,
        {
            let prods = grammar.get_production_len(n as u32);
            let mut p: usize = 0;
            while p < prods
                invariant
                    grammar.wf(),
                    n < nts,
                    nts == grammar.nonterminal_count(),
                    prods == grammar.production_count(n as int),
                    p <= prods,
                    forall|q: int, d: int|
                        0 <= q < p && 0 <= d < grammar.production_len(n as int, q) ==> node_fits(
                            *grammar,
                            #[trigger] grammar.spec_node(n as int, q, d),
                        ),
                decreases prods - p,
            {
                let nodes = grammar.get_node_count(n as u32, p as u32);
                let mut d: usize = 0;
                while d < nodes
                    invariant
                        grammar.wf(),
                        n < nts,
                        nts == grammar.nonterminal_count(),
                        prods == grammar.production_count(n as int),
                        p < prods,
                        nodes == grammar.production_len(n as int, p as int),
                        d <= nodes,
                        forall|x: int|
                            0 <= x < d ==> node_fits(*grammar, #[trigger] grammar.spec_node(n as int, p as int, x)),
                    decreases nodes - d,
                {
                    let node = grammar.get_node(n as u32, p as u32, d as u32);
                    assert(node_valid(
                        grammar.spec_rules(),
                        grammar.spec_terminals(),
                        grammar.spec_regexes(),
                        grammar.spec_excepteds(),
                        grammar.spec_rules()[n as int]@[p as int]@[d as int],
                    ));
                    match node {
                        Node::Except(x, reps) => {
                            let states = grammar.get_excepted(x).statuses.len();
                            let max: usize = match reps {
                                None => u32::MAX as usize,
                                Some(r) => {
                                    if r == u32::MAX {
                                        let e = EngineBaseError::RepetitionInExceptedTooLarge(
                                            r as usize,
                                            (u32::MAX - 1) as usize,
                                        );
                                        assert(excepted_error(*grammar, node, e));
                                        return Err(e);
                                    }
                                    let m = STATE_WORD_RANGE / (r as u64 + 1);
                                    if m > u32::MAX as u64 {
                                        u32::MAX as usize
                                    } else {
                                        m as usize
                                    }
                                },
                            };
                            proof {
                                let c = states as int;
                                assert(max as int == excepted_limit(reps));
                                if let Some(r) = reps {
                                    let k = r as int + 1;
                                    assert(c * k <= STATE_WORD_RANGE <==> c <= STATE_WORD_RANGE as int / k)
                                        by (nonlinear_arith)
                                        requires
                                            k >= 1,
                                            c >= 0,
                                    ;
                                    assert(k * c == c * k) by (nonlinear_arith);
                                }
                            }
                            if states > max {
                                let e = EngineBaseError::ExceptedTooLarge(states, max);
                                assert(excepted_error(*grammar, node, e));
                                return Err(e);
                            }
                        },
                        _ => {},
                    }
                    d = d + 1;
                }
                p = p + 1;
            }
            n = n + 1;
        }
        Ok(())
    }

    /// Creates an engine over `grammar` and `vocabulary`, positioned at the
    /// start of the input.
    ///
    /// # Errors
    ///
    /// Returns an error if a terminal, a regular expression, an `except!` body or
    /// a repetition count cannot be encoded in a 32-bit sub-state word.
    pub fn new(vocabulary: Vocabulary, grammar: Grammar, config: EngineConfig) -> (r: Result<
        EngineBase,
        EngineBaseError,
    >)
        requires
            grammar.wf(),
            vocabulary.wf(),
        ensures
            r is Ok <==> fits_state_words(grammar),
            r matches Err(e) ==> match e {
                EngineBaseError::TerminalTooLong(len, max) => len > max && max == u32::MAX && exists|
                    t: int,
                |
                    0 <= t < grammar.spec_terminals().len() && #[trigger] grammar.spec_terminals()[t]@.len()
                        == len as int,
                EngineBaseError::RegexTooLarge(count, max) => count > max && max == u32::MAX && (
                forall|t: int|
                    0 <= t < grammar.spec_terminals().len() ==> #[trigger] grammar.spec_terminals()[t]@.len()
                        <= u32::MAX) && exists|x: int|
                    0 <= x < grammar.spec_regexes().len() && #[trigger] grammar.spec_regexes()[x].state_count()
                        == count as int,
                _ => (forall|t: int|
                    0 <= t < grammar.spec_terminals().len() ==> #[trigger] grammar.spec_terminals()[t]@.len()
                        <= u32::MAX) && (forall|x: int|
                    0 <= x < grammar.spec_regexes().len() ==> #[trigger] grammar.spec_regexes()[x].state_count()
                        <= u32::MAX) && exists|n: int, p: int, d: int|
                    0 <= n < grammar.nonterminal_count() && 0 <= p < grammar.production_count(n) && 0 <= d
                        < grammar.production_len(n, p) && excepted_error(
                        grammar,
                        #[trigger] grammar.spec_node(n, p, d),
                        e,
                    ),
            },
            r matches Ok(e) ==> {
                &&& e.wf()
                &&& e.spec_grammar() == grammar
                &&& e.spec_vocabulary() == vocabulary
                &&& e.chart().len() == 1
                &&& has_predictions(grammar, e.chart()[0], grammar.spec_start(), 0)
                &&& initial_justified(grammar, e.chart()[0], grammar.spec_start())
                &&& e.spec_config() == config
                &&& !e.spec_is_finished()
                &&& e.allowed() == Set::<int>::empty()
            },
    {
        match Self::validate_ts_size_for_terminals(&grammar) {
            Ok(()) => {},
            Err(e) => {
                return Err(e);
            },
        }
        match Self::validate_ts_size_for_regexes(&grammar) {
            Ok(()) => {},
            Err(e) => {
                return Err(e);
            },
        }
        match Self::validate_ts_size_for_excepted(&grammar) {
            Ok(()) => {},
            Err(e) => {
                return Err(e);
            },
        }
        let vocab_size = vocabulary.get_vocab_size();
        let nts = grammar.get_nonterminals_size();
        let mut earley_sets = EarleySets::new();
        earley_sets.new_row();
        let mut engine = EngineBase {
            vocabulary,
            grammar,
            allowed_first_bytes: FixedBitSet::with_capacity(256),
            allowed_token_ids: FixedBitSet::with_capacity(vocab_size),
            earley_sets,
            postdot_items: vec![HashMap::new()],
            finished: vec![false],
            leo_items: vec![HashMap::new()],
            already_predicted_nonterminals: FixedBitSet::with_capacity(nts),
            config,
        };
        proof {
            let rows = engine.chart();
            assert(rows =~= seq![Seq::<EarleyItem>::empty()]);
            assert(rows[0].no_duplicates());
            assert(engine.postdot() =~= seq![Map::<u32, PostDotItems>::empty()]);
            assert(engine.leo() =~= seq![Map::<u32, (u32, u32)>::empty()]);
        }
        engine.reset();
        Ok(engine)
    }

    /// Whether `b` can be fed now: the input is not finished, the chart has
    /// room for another set, and some item of the last set scans `b`.
    pub open spec fn accepts_first(&self, b: u8) -> bool {
        &&& !self.spec_is_finished()
        &&& self.chart().len() < u32::MAX
        &&& row_scans(self.spec_grammar(), self.last_row(), b)
    }

    /// `next` is what feeding byte `b` to `self` gives: `b` is accepted, and
    /// the new Earley set is exactly what Earley's rules make of the chart.
    pub open spec fn byte_step(&self, b: u8, next: EngineBase) -> bool {
        let g = self.spec_grammar();
        &&& self.accepts_first(b)
        &&& next.wf()
        &&& next.spec_grammar() == g
        &&& next.spec_vocabulary() == self.spec_vocabulary()
        &&& next.chart().len() == self.chart().len() + 1
        &&& next.keeps_prefix(self, self.chart().len() as int)
        &&& forall|j: int|
            0 <= j < self.last_row().len() ==> scanned_into(
                g,
                #[trigger] self.last_row()[j],
                b,
                next.last_row(),
            )
        &&& exists|done: Set<(u32, u32)>|
            #[trigger] completed_step(
                g,
                self.postdot(),
                self.last_row(),
                b,
                done,
                next.last_row(),
                (g.spec_start(), 0u32),
                next.spec_is_finished(),
            ) && rows_justified(
                g,
                self.postdot(),
                self.last_row(),
                b,
                done,
                self.chart().len() as int,
                next.last_row(),
            )
    }

    /// Feeds the bytes of token `token_id`. On success the chart keeps every
    /// set it had and gains one per byte; on any error it is left as it was.
    pub fn try_accept_new_token(&mut self, token_id: u32) -> (r: Result<
        AcceptTokenResult,
        AcceptTokenError,
    >)
        requires
            old(self).wf(),
        ensures
            final(self).wf(),
            final(self).spec_grammar() == old(self).spec_grammar(),
            final(self).spec_vocabulary() == old(self).spec_vocabulary(),
            final(self).allowed() == old(self).allowed(),
            old(self).spec_is_finished() ==> r == Err::<AcceptTokenResult, _>(
                AcceptTokenError::Finished,
            ),
            !old(self).spec_is_finished() && old(self).spec_vocabulary().token(token_id as int) is None
                ==> r == Err::<AcceptTokenResult, _>(AcceptTokenError::UnknownTokenId),
            !old(self).spec_is_finished() && old(self).spec_vocabulary().token(token_id as int) is Some
                ==> (r is Ok || r == Err::<AcceptTokenResult, _>(AcceptTokenError::Rejected)),
            r is Err ==> final(self).same_chart(old(self)),
            r is Ok ==> {
                let t = old(self).spec_vocabulary().token(token_id as int)->0;
                &&& t.len() > 0 ==> old(self).accepts_first(t[0])
                &&& final(self).chart().len() == old(self).chart().len() + t.len()
                &&& final(self).keeps_prefix(old(self), old(self).chart().len() as int)
                &&& (r == Ok::<_, AcceptTokenError>(AcceptTokenResult::Finished)
                    <==> final(self).spec_is_finished())
            },
            ({
                let t = old(self).spec_vocabulary().token(token_id as int);
                !old(self).spec_is_finished() && t is Some && t->0.len() == 1 ==> (r is Ok
                    <==> old(self).accepts_first(t->0[0]))
            }),
            r is Ok ==> exists|states: Seq<EngineBase>|
                #[trigger] fed_chain(states, old(self).spec_vocabulary().token(token_id as int)->0)
                    && states[0] == *old(self) && states.last() == *final(self),
            ({
                let t = old(self).spec_vocabulary().token(token_id as int);
                r == Err::<AcceptTokenResult, _>(AcceptTokenError::Rejected) && t is Some ==> exists|
                    states: Seq<EngineBase>,
                |
                    #[trigger] fed_chain(states, t->0.take(states.len() - 1)) && states.len() <= t->0.len()
                        && states[0] == *old(self) && !states.last().accepts_first(
                        t->0[states.len() - 1],
                    )
            }),
            ({
                let t = old(self).spec_vocabulary().token(token_id as int);
                !old(self).spec_is_finished() && t is Some && t->0.len() == 0 ==> r == Ok::<
                    _,
                    AcceptTokenError,
                >(AcceptTokenResult::Ongoing)
            }),
    {
        let last = self.finished.len() - 1;
        if self.finished[last] {
            return Err(AcceptTokenError::Finished);
        }
        let bytes = match self.vocabulary.get_token_from_token_id(token_id) {
            Some(t) => copy_vec(t),
            None => {
                return Err(AcceptTokenError::UnknownTokenId);
            },
        };
        let len = self.earley_sets.len();
        let ghost start = *self;
        let ghost mut states: Seq<EngineBase> = seq![*self];
        assert(bytes@.take(0) =~= Seq::<u8>::empty());
        let mut i: usize = 0;
        while i < bytes.len()
            invariant
                self.wf(),
                start.wf(),
                start == *old(self),
                states.len() == i + 1,
                states[0] == start,
                states.last() == *self,
                fed_chain(states, bytes@.take(i as int)),
                !start.spec_is_finished(),
                start.spec_vocabulary().token(token_id as int) == Some(bytes@),
                self.spec_grammar() == start.spec_grammar(),
                self.spec_vocabulary() == start.spec_vocabulary(),
                self.allowed() == start.allowed(),
                len == start.chart().len(),
                self.chart().len() == len + i,
                self.keeps_prefix(&start, len as int),
                i == 0 ==> self.same_chart(&start),
                i >= 1 ==> start.accepts_first(bytes@[0]),
                i <= bytes@.len(),
            decreases bytes@.len() - i,
        {
            let ghost before = *self;
            match self.accept_byte(bytes[i]) {
                Ok(()) => {},
                Err(_) => {
                    assert(!before.accepts_first(bytes@[i as int]));
                    assert(fed_chain(states, bytes@.take(states.len() - 1)));
                    self.revert_change(len);
                    proof {
                        assert(start.chart().take(len as int) =~= start.chart());
                        assert(start.postdot().take(len as int) =~= start.postdot());
                        assert(start.finished_flags().take(len as int) =~= start.finished_flags());
                    }
                    return Err(AcceptTokenError::Rejected);
                },
            }
            proof {
                let n = len as int;
                assert(self.chart().take(n) =~= start.chart().take(n));
                assert(self.postdot().take(n) =~= start.postdot().take(n));
                assert(self.finished_flags().take(n) =~= start.finished_flags().take(n));
                let prev = states;
                states = states.push(*self);
                let bs = bytes@.take(i as int + 1);
                assert forall|q: int| 0 <= q < bs.len() implies #[trigger] states[q].byte_step(
                    bs[q],
                    states[q + 1],
                ) by {
                    if q < i {
                        assert(bs[q] == bytes@.take(i as int)[q]);
                        assert(prev[q].byte_step(bytes@.take(i as int)[q], prev[q + 1]));
                    } else {
                        assert(states[q] == before);
                    }
                }
            }
            i = i + 1;
        }
        assert(bytes@.take(bytes@.len() as int) =~= bytes@);
        if bytes.len() == 0 {
            return Ok(AcceptTokenResult::Ongoing);
        }
        let last = self.finished.len() - 1;
        if self.finished[last] {
            Ok(AcceptTokenResult::Finished)
        } else {
            Ok(AcceptTokenResult::Ongoing)
        }
    }

    /// Probes every token whose first byte is `b`, sharing the Earley sets of
    /// common prefixes between consecutive tokens, and adds those whose bytes
    /// are all accepted. The chart ends as it began.
    #[verifier::rlimit(60)]
    fn probe_tokens_from_first_byte(&mut self, b: u8)
        requires
            old(self).wf(),
        ensures
            final(self).wf(),
            final(self).same_chart(old(self)),
            final(self).spec_grammar() == old(self).spec_grammar(),
            final(self).spec_vocabulary() == old(self).spec_vocabulary(),
            final(self).first_bytes() == old(self).first_bytes(),
            forall|t: int| #[trigger]
                final(self).allowed().contains(t) ==> old(self).allowed().contains(t) || (
                old(self).spec_vocabulary().token(t) is Some && old(self).spec_vocabulary().token(
                    t,
                )->0.len() > 0 && old(self).spec_vocabulary().token(t)->0[0] == b
                    && old(self).accepts_first(b) && accepted_chain(
                    *old(self),
                    old(self).spec_vocabulary().token(t)->0,
                )),
            forall|t: int| #[trigger]
                old(self).allowed().contains(t) ==> final(self).allowed().contains(t),
            forall|t: int|
                old(self).accepts_first(b) && #[trigger] old(self).spec_vocabulary().token(t)
                    == Some(seq![b]) ==> final(self).allowed().contains(t),
            forall|t: int|
                #![trigger old(self).spec_vocabulary().token(t)]
                old(self).spec_vocabulary().token(t) is Some && old(self).spec_vocabulary().token(
                    t,
                )->0.len() > 0 && old(self).spec_vocabulary().token(t)->0[0] == b
                    ==> final(self).allowed().contains(t) || refused_chain(
                    *old(self),
                    old(self).spec_vocabulary().token(t)->0,
                ),
    {
        let len = self.earley_sets.len();
        let ids = copy_vec(self.vocabulary.get_token_ids_from_first_byte(b));
        let ghost start = *old(self);
        let ghost r0 = *self;
        match self.accept_byte(b) {
            Ok(()) => {},
            Err(_) => {
                proof {
                    assert forall|t: int|
                        #![trigger start.spec_vocabulary().token(t)]
                        start.spec_vocabulary().token(t) is Some && start.spec_vocabulary().token(
                            t,
                        )->0.len() > 0 && start.spec_vocabulary().token(t)->0[0] == b
                        implies self.allowed().contains(t) || refused_chain(
                        start,
                        start.spec_vocabulary().token(t)->0,
                    ) by {
                        let tk = start.spec_vocabulary().token(t)->0;
                        let st = seq![start];
                        assert(tk.take(0) =~= Seq::<u8>::empty());
                        assert(fed_chain(st, tk.take(st.len() - 1)));
                    }
                }
                return;
            },
        }
        let ghost mut path: Seq<EngineBase> = seq![start, *self];
        proof {
            let n = len as int;
            assert(self.chart().take(n) =~= start.chart().take(n));
            assert(self.postdot().take(n) =~= start.postdot().take(n));
            assert(self.finished_flags().take(n) =~= start.finished_flags().take(n));
            assert(start.chart().take(n) =~= start.chart());
            assert(start.postdot().take(n) =~= start.postdot());
            assert(start.finished_flags().take(n) =~= start.finished_flags());
            assert(seq![b].take(1) =~= seq![b]);
            assert(path[0].byte_step(seq![b][0], path[1]));
            assert(fed_chain(path, seq![b].take(1)));
            assert(self.chart().take(n + 1) =~= self.chart());
            assert(self.postdot().take(n + 1) =~= self.postdot());
            assert(self.finished_flags().take(n + 1) =~= self.finished_flags());
        }
        let mut prev: Vec<u8> = vec![b];
        let mut depth: usize = 1;
        let mut j: usize = 0;
        while j < ids.len()
            invariant
                self.wf(),
                start.wf(),
                start == *old(self),
                start.accepts_first(b),
                len == start.chart().len(),
                ids@ == start.spec_vocabulary().spec_group(b as int),
                self.spec_grammar() == start.spec_grammar(),
                self.spec_vocabulary() == start.spec_vocabulary(),
                self.first_bytes() == start.first_bytes(),
                1 <= depth <= prev@.len(),
                prev@[0] == b,
                self.chart().len() == len + depth,
                self.keeps_prefix(&start, len as int),
                path.len() == depth + 1,
                path[0] == start,
                fed_chain(path, prev@.take(depth as int)),
                forall|q: int|
                    0 <= q <= depth ==> {
                        &&& (#[trigger] path[q]).chart() == self.chart().take(len + q)
                        &&& path[q].postdot() == self.postdot().take(len + q)
                        &&& path[q].finished_flags() == self.finished_flags().take(len + q)
                        &&& path[q].spec_grammar() == start.spec_grammar()
                        &&& path[q].spec_vocabulary() == start.spec_vocabulary()
                    },
                j <= ids@.len(),
                forall|t: int| #[trigger]
                    self.allowed().contains(t) ==> start.allowed().contains(t) || (
                    start.spec_vocabulary().token(t) is Some && start.spec_vocabulary().token(
                        t,
                    )->0.len() > 0 && start.spec_vocabulary().token(t)->0[0] == b
                        && accepted_chain(start, start.spec_vocabulary().token(t)->0)),
                forall|t: int| #[trigger] start.allowed().contains(t) ==> self.allowed().contains(t),
                forall|k: int|
                    0 <= k < j && start.spec_vocabulary().token((#[trigger] ids@[k]) as int)->0.len() == 1
                        ==> self.allowed().contains(ids@[k] as int),
                forall|k: int|
                    0 <= k < j ==> self.allowed().contains((#[trigger] ids@[k]) as int) || refused_chain(
                        start,
                        start.spec_vocabulary().token(ids@[k] as int)->0,
                    ),
            decreases ids@.len() - j,
        {
            let id = ids[j];
            assert(start.spec_vocabulary().spec_group(b as int)[j as int] == id);
            let tok = match self.vocabulary.get_token_from_token_id(id) {
                Some(t) => copy_vec(t),
                None => Vec::new(),
            };
            assert(tok@ == start.spec_vocabulary().token(id as int)->0);
            let l = common_prefix_len(&prev, &tok);
            let p = if l < depth {
                l
            } else {
                depth
            };
            let ghost before = *self;
            let ghost path_before = path;
            self.revert_change(len + p);
            proof {
                let n = len as int;
                assert(self.chart().take(n) =~= before.chart().take(n));
                assert(self.postdot().take(n) =~= before.postdot().take(n));
                assert(self.finished_flags().take(n) =~= before.finished_flags().take(n));
                lemma_fed_chain_take(path, prev@.take(depth as int), p as int);
                path = path.take(p + 1);
                assert(prev@.take(depth as int).take(p as int) =~= tok@.take(p as int));
                assert forall|q: int| 0 <= q <= p implies {
                    &&& (#[trigger] path[q]).chart() == self.chart().take(len + q)
                    &&& path[q].postdot() == self.postdot().take(len + q)
                    &&& path[q].finished_flags() == self.finished_flags().take(len + q)
                    &&& path[q].spec_grammar() == start.spec_grammar()
                    &&& path[q].spec_vocabulary() == start.spec_vocabulary()
                } by {
                    assert(path[q] == path_before[q]);
                    assert(self.chart().take(len + q) =~= before.chart().take(len + q));
                    assert(self.postdot().take(len + q) =~= before.postdot().take(len + q));
                    assert(self.finished_flags().take(len + q) =~= before.finished_flags().take(len + q));
                }
            }
            depth = p;
            let mut q: usize = p;
            let mut going = true;
            let ghost mut refused = false;
            while going && q < tok.len()
                invariant
                    self.wf(),
                    start.wf(),
                    self.spec_grammar() == start.spec_grammar(),
                    self.spec_vocabulary() == start.spec_vocabulary(),
                    self.first_bytes() == start.first_bytes(),
                    self.allowed() == before.allowed(),
                    1 <= p <= q <= tok@.len(),
                    self.chart().len() == len + q,
                    self.keeps_prefix(&start, len as int),
                    len == start.chart().len(),
                    path.len() == q + 1,
                    path[0] == start,
                    fed_chain(path, tok@.take(q as int)),
                    forall|qq: int|
                        0 <= qq <= q ==> {
                            &&& (#[trigger] path[qq]).chart() == self.chart().take(len + qq)
                            &&& path[qq].postdot() == self.postdot().take(len + qq)
                            &&& path[qq].finished_flags() == self.finished_flags().take(len + qq)
                            &&& path[qq].spec_grammar() == start.spec_grammar()
                            &&& path[qq].spec_vocabulary() == start.spec_vocabulary()
                        },
                    !going ==> q < tok@.len() && !path.last().accepts_first(tok@[q as int]),
                decreases tok@.len() - q, if going { 1int } else { 0int },
            {
                let ghost step = *self;
                proof {
                    let n2 = len + q;
                    assert(self.chart().take(n2) =~= self.chart());
                    assert(self.postdot().take(n2) =~= self.postdot());
                    assert(self.finished_flags().take(n2) =~= self.finished_flags());
                    assert(same_view(step, path[q as int]));
                }
                match self.accept_byte(tok[q]) {
                    Ok(()) => {
                        proof {
                            lemma_byte_step_view(step, path[q as int], tok@[q as int], *self);
                            let old_path = path;
                            path = path.push(*self);
                            let bs = tok@.take(q + 1);
                            assert forall|i: int| 0 <= i < bs.len() implies #[trigger] path[i].byte_step(
                                bs[i],
                                path[i + 1],
                            ) by {
                                if i < q {
                                    assert(bs[i] == tok@.take(q as int)[i]);
                                    assert(old_path[i].byte_step(tok@.take(q as int)[i], old_path[i + 1]));
                                }
                            }
                            let n = len as int;
                            assert(self.chart().take(n) =~= step.chart().take(n));
                            assert(self.postdot().take(n) =~= step.postdot().take(n));
                            assert(self.finished_flags().take(n) =~= step.finished_flags().take(n));
                            assert forall|qq: int| 0 <= qq <= q + 1 implies {
                                &&& (#[trigger] path[qq]).chart() == self.chart().take(len + qq)
                                &&& path[qq].postdot() == self.postdot().take(len + qq)
                                &&& path[qq].finished_flags() == self.finished_flags().take(len + qq)
                                &&& path[qq].spec_grammar() == start.spec_grammar()
                                &&& path[qq].spec_vocabulary() == start.spec_vocabulary()
                            } by {
                                if qq <= q {
                                    assert(self.chart().take(len + qq) =~= step.chart().take(len + qq));
                                    assert(self.postdot().take(len + qq) =~= step.postdot().take(len + qq));
                                    assert(self.finished_flags().take(len + qq) =~= step.finished_flags().take(
                                        len + qq,
                                    ));
                                } else {
                                    assert(self.chart().take(len + qq) =~= self.chart());
                                    assert(self.postdot().take(len + qq) =~= self.postdot());
                                    assert(self.finished_flags().take(len + qq) =~= self.finished_flags());
                                }
                            }
                        }
                        q = q + 1;
                    },
                    Err(_) => {
                        going = false;
                    },
                }
            }
            depth = q;
            let ghost tk = tok@;
            if q == tok.len() {
                self.allowed_token_ids.insert(id as usize);
                proof {
                    assert(tk.take(q as int) =~= tk);
                    assert(accepted_chain(start, tk));
                }
            } else {
                proof {
                    assert(refused_chain(start, tk));
                }
            }
            prev = tok;
            j = j + 1;
        }
        let ghost probed = self.allowed();
        self.revert_change(len);
        proof {
            assert(self.allowed() == probed);
            assert forall|t: int| #[trigger] self.allowed().contains(t) implies start.allowed().contains(t) || (
                start.spec_vocabulary().token(t) is Some && start.spec_vocabulary().token(
                    t,
                )->0.len() > 0 && start.spec_vocabulary().token(t)->0[0] == b
                    && start.accepts_first(b) && accepted_chain(start, start.spec_vocabulary().token(t)->0)) by {
                assert(probed.contains(t));
            }
            assert(start.chart().take(len as int) =~= start.chart());
            assert(start.postdot().take(len as int) =~= start.postdot());
            assert(start.finished_flags().take(len as int) =~= start.finished_flags());
            assert forall|t: int|
                start.accepts_first(b) && #[trigger] start.spec_vocabulary().token(t) == Some(seq![b])
                implies self.allowed().contains(t) by {
                let tk = start.spec_vocabulary().token(t)->0;
                assert(tk.len() > 0);
                assert(start.spec_vocabulary().spec_group(tk[0] as int).contains(t as u32));
                let k = choose|k: int| 0 <= k < ids@.len() && ids@[k] == t as u32;
                assert(start.spec_vocabulary().token(ids@[k] as int)->0.len() == 1);
            }
            assert forall|t: int|
                #![trigger start.spec_vocabulary().token(t)]
                start.spec_vocabulary().token(t) is Some && start.spec_vocabulary().token(t)->0.len() > 0
                    && start.spec_vocabulary().token(t)->0[0] == b implies self.allowed().contains(t)
                || refused_chain(start, start.spec_vocabulary().token(t)->0) by {
                let tk = start.spec_vocabulary().token(t)->0;
                assert(start.spec_vocabulary().spec_group(tk[0] as int).contains(t as u32));
                let k = choose|k: int| 0 <= k < ids@.len() && ids@[k] == t as u32;
                assert(self.allowed().contains(ids@[k] as int) || refused_chain(
                    start,
                    start.spec_vocabulary().token(ids@[k] as int)->0,
                ));
            }
        }
    }

    /// Computes the set of token ids that may be accepted next; read it with
    /// [`Self::get_allowed_token_ids_from_last_computation`]. The chart ends as
    /// it began.
    pub fn compute_allowed_token_ids(&mut self)
        requires
            old(self).wf(),
        ensures
            final(self).wf(),
            final(self).same_chart(old(self)),
            final(self).spec_grammar() == old(self).spec_grammar(),
            final(self).spec_vocabulary() == old(self).spec_vocabulary(),
            forall|t: int| #[trigger]
                final(self).allowed().contains(t) ==> {
                    let tk = old(self).spec_vocabulary().token(t);
                    &&& !old(self).spec_is_finished()
                    &&& tk is Some
                    &&& tk->0.len() > 0 ==> old(self).accepts_first(tk->0[0])
                },
            forall|t: int|
                #![trigger old(self).spec_vocabulary().token(t)]
                old(self).spec_vocabulary().token(t) is Some && old(self).spec_vocabulary().token(
                    t,
                )->0.len() == 1 ==> (final(self).allowed().contains(t) <==> old(self).accepts_first(
                    old(self).spec_vocabulary().token(t)->0[0],
                )),
            forall|t: int|
                #![trigger old(self).spec_vocabulary().token(t)]
                old(self).spec_vocabulary().token(t) is Some && old(self).spec_vocabulary().token(
                    t,
                )->0.len() == 0 ==> (final(self).allowed().contains(t)
                    <==> !old(self).spec_is_finished()),
            forall|t: int|
                #![trigger old(self).spec_vocabulary().token(t)]
                old(self).spec_vocabulary().token(t) is Some && old(self).spec_vocabulary().token(
                    t,
                )->0.len() > 0 ==> (final(self).allowed().contains(t) ==> accepted_chain(
                    *old(self),
                    old(self).spec_vocabulary().token(t)->0,
                )) && (final(self).allowed().contains(t) || refused_chain(
                    *old(self),
                    old(self).spec_vocabulary().token(t)->0,
                )),
    {
        self.allowed_token_ids.clear();
        let last = self.finished.len() - 1;
        if self.finished[last] {
            proof {
                assert forall|t: int|
                    #![trigger old(self).spec_vocabulary().token(t)]
                    old(self).spec_vocabulary().token(t) is Some && old(self).spec_vocabulary().token(
                        t,
                    )->0.len() > 0 implies refused_chain(*old(self), old(self).spec_vocabulary().token(t)->0) by {
                    let tk = old(self).spec_vocabulary().token(t)->0;
                    let st = seq![*old(self)];
                    assert(tk.take(0) =~= Seq::<u8>::empty());
                    assert(fed_chain(st, tk.take(st.len() - 1)));
                }
            }
            return;
        }
        self.update_allowed_first_bytes();
        let ghost start = *self;
        let mut b: usize = 0;
        while b < 256
            invariant
                self.wf(),
                start.wf(),
                !start.spec_is_finished(),
                start.same_chart(old(self)),
                start.spec_grammar() == old(self).spec_grammar(),
                start.spec_vocabulary() == old(self).spec_vocabulary(),
                start.allowed() == Set::<int>::empty(),
                forall|x: int|
                    0 <= x < 256 && row_scans(start.spec_grammar(), start.last_row(), x as u8)
                        ==> #[trigger] start.first_bytes().contains(x),
                self.same_chart(&start),
                self.spec_grammar() == start.spec_grammar(),
                self.spec_vocabulary() == start.spec_vocabulary(),
                self.first_bytes() == start.first_bytes(),
                b <= 256,
                forall|t: int| #[trigger]
                    self.allowed().contains(t) ==> {
                        let tk = start.spec_vocabulary().token(t);
                        &&& tk is Some
                        &&& tk->0.len() > 0
                        &&& start.accepts_first(tk->0[0])
                        &&& tk->0[0] < b
                    },
                forall|t: int|
                    #![trigger start.spec_vocabulary().token(t)]
                    start.spec_vocabulary().token(t) is Some && start.spec_vocabulary().token(
                        t,
                    )->0.len() == 1 && start.spec_vocabulary().token(t)->0[0] < b
                        && start.accepts_first(start.spec_vocabulary().token(t)->0[0])
                        ==> self.allowed().contains(t),
                forall|t: int| #[trigger]
                    self.allowed().contains(t) ==> accepted_chain(start, start.spec_vocabulary().token(t)->0),
                forall|t: int|
                    #![trigger start.spec_vocabulary().token(t)]
                    start.spec_vocabulary().token(t) is Some && start.spec_vocabulary().token(t)->0.len() > 0
                        && start.spec_vocabulary().token(t)->0[0] < b ==> self.allowed().contains(t)
                        || refused_chain(start, start.spec_vocabulary().token(t)->0),
            decreases 256 - b,
        {
            let ghost before = *self;
            if self.allowed_first_bytes.contains(b) {
                self.probe_tokens_from_first_byte(b as u8);
            } else {
                proof {
                    assert(!start.first_bytes().contains(b as int));
                    assert(((b as int) as u8) == b as u8);
                }
            }
            proof {
                assert(same_view(before, start));
                assert forall|t: int| #[trigger]
                    self.allowed().contains(t) implies accepted_chain(start, start.spec_vocabulary().token(t)->0) by {
                    if !before.allowed().contains(t) {
                        lemma_chains_view(before, start, start.spec_vocabulary().token(t)->0);
                    }
                }
                assert forall|t: int|
                    #![trigger start.spec_vocabulary().token(t)]
                    start.spec_vocabulary().token(t) is Some && start.spec_vocabulary().token(t)->0.len() > 0
                        && start.spec_vocabulary().token(t)->0[0] < b + 1 implies self.allowed().contains(t)
                    || refused_chain(start, start.spec_vocabulary().token(t)->0) by {
                    let tk = start.spec_vocabulary().token(t)->0;
                    if tk[0] == b as u8 {
                        if before.first_bytes().contains(b as int) {
                            lemma_chains_view(before, start, tk);
                        } else {
                            assert(((b as int) as u8) == b as u8);
                            assert(!start.accepts_first(tk[0]));
                            let st = seq![start];
                            assert(tk.take(0) =~= Seq::<u8>::empty());
                            assert(fed_chain(st, tk.take(st.len() - 1)));
                        }
                    } else {
                        assert(before.allowed().contains(t) || refused_chain(start, tk));
                        if before.allowed().contains(t) {
                            assert(self.allowed().contains(t));
                        }
                    }
                }
                assert forall|t: int|
                    start.spec_vocabulary().token(t) is Some && start.spec_vocabulary().token(t)->0.len()
                        == 1 && start.spec_vocabulary().token(t)->0[0] < b + 1 && start.accepts_first(
                        start.spec_vocabulary().token(t)->0[0],
                    ) implies #[trigger] self.allowed().contains(t) by {
                    let tk = start.spec_vocabulary().token(t)->0;
                    if tk[0] == b as u8 {
                        assert(tk =~= seq![b as u8]);
                        assert(row_scans(start.spec_grammar(), start.last_row(), (b as int) as u8));
                    } else {
                        assert(before.allowed().contains(t));
                    }
                }
            }
            b = b + 1;
        }
        let empty = copy_vec(self.vocabulary.get_empty_token_ids());
        let mut i: usize = 0;
        while i < empty.len()
            invariant
                self.wf(),
                start.wf(),
                !start.spec_is_finished(),
                empty@ == start.spec_vocabulary().spec_empty_ids(),
                self.same_chart(&start),
                self.spec_grammar() == start.spec_grammar(),
                self.spec_vocabulary() == start.spec_vocabulary(),
                i <= empty@.len(),
                forall|t: int| #[trigger]
                    self.allowed().contains(t) ==> {
                        let tk = start.spec_vocabulary().token(t);
                        &&& tk is Some
                        &&& tk->0.len() > 0 ==> start.accepts_first(tk->0[0])
                    },
                forall|t: int|
                    #![trigger start.spec_vocabulary().token(t)]
                    start.spec_vocabulary().token(t) is Some && start.spec_vocabulary().token(
                        t,
                    )->0.len() == 1 && start.accepts_first(start.spec_vocabulary().token(t)->0[0])
                        ==> self.allowed().contains(t),
                forall|k: int| 0 <= k < i ==> self.allowed().contains(#[trigger] empty@[k] as int),
                forall|t: int| #[trigger]
                    self.allowed().contains(t) ==> start.spec_vocabulary().token(t)->0.len() == 0
                        || accepted_chain(start, start.spec_vocabulary().token(t)->0),
                forall|t: int|
                    #![trigger start.spec_vocabulary().token(t)]
                    start.spec_vocabulary().token(t) is Some && start.spec_vocabulary().token(t)->0.len() > 0
                        ==> self.allowed().contains(t) || refused_chain(start, start.spec_vocabulary().token(t)->0),
            decreases empty@.len() - i,
        {
            let id = empty[i];
            assert(start.spec_vocabulary().spec_empty_ids()[i as int] == id);
            assert(start.spec_vocabulary().wf());
            assert(start.spec_vocabulary().token(id as int) is Some);
            assert(start.spec_vocabulary().token(id as int)->0.len() == 0);
            let ghost before = self.allowed();
            self.allowed_token_ids.insert(id as usize);
            assert(self.allowed() == before.insert(id as int));
            i = i + 1;
        }
        proof {
            assert forall|t: int|
                start.spec_vocabulary().token(t) is Some && start.spec_vocabulary().token(t)->0.len()
                    == 0 implies #[trigger] self.allowed().contains(t) by {
                assert(start.spec_vocabulary().spec_empty_ids().contains(t as u32));
                let k = choose|k: int| 0 <= k < empty@.len() && empty@[k] == t as u32;
                assert(self.allowed().contains(empty@[k] as int));
            }
            assert(same_view(start, *old(self)));
            assert forall|t: int|
                #![trigger old(self).spec_vocabulary().token(t)]
                old(self).spec_vocabulary().token(t) is Some && old(self).spec_vocabulary().token(
                    t,
                )->0.len() > 0 implies (self.allowed().contains(t) ==> accepted_chain(
                *old(self),
                old(self).spec_vocabulary().token(t)->0,
            )) && (self.allowed().contains(t) || refused_chain(
                *old(self),
                old(self).spec_vocabulary().token(t)->0,
            )) by {
                lemma_chains_view(start, *old(self), old(self).spec_vocabulary().token(t)->0);
            }
        }
    }

    /// The token ids found by the last [`Self::compute_allowed_token_ids`].
    pub fn get_allowed_token_ids_from_last_computation(&self) -> (r: &FixedBitSet)
        ensures
            bitset_ones(*r) == self.allowed(),
    {
        &self.allowed_token_ids
    }

    /// Whether the start nonterminal has been derived from the whole input.
    pub fn is_finished(&self) -> (r: bool)
        requires
            self.wf(),
        ensures
            r == self.spec_is_finished(),
    {
        self.finished[self.finished.len() - 1]
    }

    /// The vocabulary.
    pub fn get_vocab(&self) -> (r: &Vocabulary)
        ensures
            *r == self.spec_vocabulary(),
    {
        &self.vocabulary
    }

    /// The number of Earley sets: a snapshot that [`Self::revert_to`] returns to.
    pub fn snapshot_len(&self) -> (r: usize)
        ensures
            r == self.chart().len(),
    {
        self.earley_sets.len()
    }

    /// Truncates the chart to its first `len` Earley sets, with their postdot
    /// columns and flags: the state it had when [`Self::snapshot_len`] returned
    /// `len`, if only bytes were fed since.
    pub fn revert_to(&mut self, len: usize)
        requires
            old(self).wf(),
            1 <= len <= old(self).chart().len(),
        ensures
            final(self).wf(),
            final(self).spec_grammar() == old(self).spec_grammar(),
            final(self).spec_vocabulary() == old(self).spec_vocabulary(),
            final(self).allowed() == old(self).allowed(),
            final(self).chart() == old(self).chart().take(len as int),
            final(self).postdot() == old(self).postdot().take(len as int),
            final(self).finished_flags() == old(self).finished_flags().take(len as int),
    {
        self.revert_change(len)
    }

    /// Feeds one byte as one step of Scan, Complete, Predict and the postdot
    /// update. A rejected byte leaves the chart as it was. An accepted one adds
    /// the Earley set that Earley's rules give: every item that Scan makes of
    /// the last set, that completing a key of the least closed set of
    /// completions advances, or that Predict adds, and only those; the input is
    /// finished exactly when the start nonterminal is completed from the first
    /// set.
    pub fn feed_byte(&mut self, byte: u8) -> (r: Result<AcceptTokenResult, AcceptTokenError>)
        requires
            old(self).wf(),
        ensures
            final(self).wf(),
            final(self).spec_grammar() == old(self).spec_grammar(),
            final(self).spec_vocabulary() == old(self).spec_vocabulary(),
            final(self).allowed() == old(self).allowed(),
            r is Ok <==> old(self).accepts_first(byte),
            r is Ok ==> forall|j: int|
                0 <= j < old(self).last_row().len() ==> scanned_into(
                    old(self).spec_grammar(),
                    #[trigger] old(self).last_row()[j],
                    byte,
                    final(self).last_row(),
                ),
            r is Ok ==> final(self).chart().len() == old(self).chart().len() + 1
                && final(self).keeps_prefix(old(self), old(self).chart().len() as int)
                && (r == Ok::<_, AcceptTokenError>(AcceptTokenResult::Finished)
                <==> final(self).spec_is_finished()),
            r is Ok ==> exists|done: Set<(u32, u32)>|
                #[trigger] completed_step(
                    old(self).spec_grammar(),
                    old(self).postdot(),
                    old(self).last_row(),
                    byte,
                    done,
                    final(self).last_row(),
                    (old(self).spec_grammar().spec_start(), 0u32),
                    final(self).spec_is_finished(),
                ) && rows_justified(
                    old(self).spec_grammar(),
                    old(self).postdot(),
                    old(self).last_row(),
                    byte,
                    done,
                    old(self).chart().len() as int,
                    final(self).last_row(),
                ),
            r is Err ==> r == Err::<AcceptTokenResult, _>(AcceptTokenError::Rejected)
                && final(self).same_chart(old(self)),
    {
        match self.accept_byte(byte) {
            Ok(()) => {
                if self.finished[self.finished.len() - 1] {
                    Ok(AcceptTokenResult::Finished)
                } else {
                    Ok(AcceptTokenResult::Ongoing)
                }
            },
            Err(e) => Err(e),
        }
    }

    /// The grammar.
    pub fn get_grammar(&self) -> (r: &Grammar)
        ensures
            *r == self.spec_grammar(),
    {
        &self.grammar
    }

    /// The config the engine was made with.
    pub fn get_config(&self) -> (r: EngineConfig)
        ensures
            r == self.spec_config(),
    {
        self.config
    }

    /// The sub-state word a node starts in.
    fn initialize_state_id_based_on_node(&self, node: Node) -> (r: u32)
        requires
            self.inv(),
            node_valid(
                self.grammar.spec_rules(),
                self.grammar.spec_terminals(),
                self.grammar.spec_regexes(),
                self.grammar.spec_excepteds(),
                node,
            ),
            node_fits(self.grammar, node),
        ensures
            state_wf(self.grammar, node, r),
            r == init_state(self.grammar, node),
    {
        match node {
            Node::RegexString(x) => {
                assert(self.grammar.spec_regexes()[x as int].wf());
                self.grammar.get_regex(x).start
            },
            Node::Except(e, reps) => {
                let fsa = self.grammar.get_excepted(e);
                assert(fsa.wf());
                match reps {
                    None => fsa.start,
                    Some(r) => {
                        let n = fsa.statuses.len() as u64;
                        proof {
                            let c = fsa.state_count() as int;
                            assert((r as int) * c + (fsa.start as int) < (r as int + 1) * c)
                                by (nonlinear_arith)
                                requires
                                    (fsa.start as int) < c,
                            ;
                            assert((r as int) * c <= (r as int + 1) * c) by (nonlinear_arith)
                                requires
                                    c >= 0,
                                    r >= 0,
                            ;
                            vstd::arithmetic::div_mod::lemma_fundamental_div_mod_converse(
                                (r as int) * c + (fsa.start as int),
                                c,
                                r as int,
                                fsa.start as int,
                            );
                        }
                        (r as u64 * n + fsa.start as u64) as u32
                    },
                }
            },
            _ => 0,
        }
    }
}

} // verus!
