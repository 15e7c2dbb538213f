//! The model of the recognizer's data: when an Earley item, a set of them, a
//! postdot entry or a pending completion is well formed, and what Scan and
//! Predict make of items.
use crate::earley_sets::EarleyItem;
use crate::engine_base::EngineBaseError;
use crate::grammar::{Fsa, FsaStatus, Grammar, Node};
use vstd::prelude::*;

verus! {

/// The items of one column whose next node is a given nonterminal.
#[derive(Clone, Debug)]
pub enum PostDotItems {
    /// The only such item, and advancing it completes its production.
    LeoEligible(EarleyItem),
    NormalItems(Vec<EarleyItem>),
}

/// The largest value of a 32-bit sub-state word, plus one.
pub const STATE_WORD_RANGE: u64 = 4294967296;

/// The sub-state word `s` is meaningful for `node`; under an `except!` node it
/// holds an automaton state that is in progress (the body has not occurred).
pub open spec fn state_wf(g: Grammar, node: Node, s: u32) -> bool {
    match node {
        Node::Terminal(t) => (s as int) < g.spec_terminals()[t as int]@.len(),
        Node::RegexString(x) => (s as int) < g.spec_regexes()[x as int].state_count(),
        Node::Except(e, reps) => {
            let fsa = g.spec_excepteds()[e as int];
            &&& match reps {
                None => (s as int) < fsa.state_count(),
                Some(r) => (s as int) < (r as int + 1) * fsa.state_count(),
            }
            &&& fsa.spec_status(excepted_dfa_state(fsa, reps, s)) == FsaStatus::InProgress
        },
        Node::Nonterminal(_) => s == 0,
    }
}

/// An item that may stand in Earley set `k`: a node under its dot, and a
/// start no later than `k`.
pub open spec fn item_wf(g: Grammar, it: EarleyItem, k: int) -> bool {
    &&& (it.nonterminal_id as int) < g.nonterminal_count()
    &&& (it.production_index as int) < g.production_count(it.nonterminal_id as int)
    &&& (it.dot_position as int) < g.production_len(
        it.nonterminal_id as int,
        it.production_index as int,
    )
    &&& it.start_position as int <= k
    &&& state_wf(g, item_node(g, it), it.state_id)
}

pub open spec fn item_node(g: Grammar, it: EarleyItem) -> Node {
    g.spec_node(it.nonterminal_id as int, it.production_index as int, it.dot_position as int)
}

/// Advancing the dot of `it` completes its production.
pub open spec fn completes_on_advance(g: Grammar, it: EarleyItem) -> bool {
    it.dot_position as int + 1 == g.production_len(
        it.nonterminal_id as int,
        it.production_index as int,
    )
}

/// A node whose sub-state words fit in 32 bits.
pub open spec fn node_fits(g: Grammar, node: Node) -> bool {
    match node {
        Node::Except(e, reps) => {
            &&& g.spec_excepteds()[e as int].state_count() <= u32::MAX
            &&& match reps {
                Some(r) => r < u32::MAX && (r as int + 1) * g.spec_excepteds()[e as int].state_count()
                    <= STATE_WORD_RANGE,
                None => true,
            }
        },
        _ => true,
    }
}

/// The most automaton states an `except!` node with repetition count `reps`
/// can encode in a 32-bit sub-state word.
pub open spec fn excepted_limit(reps: Option<u32>) -> int {
    match reps {
        None => u32::MAX as int,
        Some(r) => if STATE_WORD_RANGE as int / (r as int + 1) > u32::MAX as int {
            u32::MAX as int
        } else {
            STATE_WORD_RANGE as int / (r as int + 1)
        },
    }
}

/// `e` reports why `node`, an `except!` node, does not fit: its repetition
/// count has no room, or its automaton has more states than the limit.
pub open spec fn excepted_error(g: Grammar, node: Node, e: EngineBaseError) -> bool {
    match node {
        Node::Except(x, reps) => match e {
            EngineBaseError::RepetitionInExceptedTooLarge(count, max) => reps == Some(u32::MAX)
                && count == u32::MAX && max == u32::MAX - 1,
            EngineBaseError::ExceptedTooLarge(states, max) => states as int
                == g.spec_excepteds()[x as int].state_count() && max as int == excepted_limit(reps)
                && states > max,
            _ => false,
        },
        _ => false,
    }
}

/// Every terminal position, automaton state and repetition count of the
/// grammar fits in a 32-bit sub-state word.
pub open spec fn fits_state_words(g: Grammar) -> bool {
    &&& forall|t: int|
        0 <= t < g.spec_terminals().len() ==> #[trigger] g.spec_terminals()[t]@.len() <= u32::MAX
    &&& forall|x: int|
        0 <= x < g.spec_regexes().len() ==> #[trigger] g.spec_regexes()[x].state_count()
            <= u32::MAX
    &&& forall|n: int, p: int, d: int|
        0 <= n < g.nonterminal_count() && 0 <= p < g.production_count(n) && 0 <= d
            < g.production_len(n, p) ==> node_fits(g, #[trigger] g.spec_node(n, p, d))
}

/// An item recorded in column `k` under the postdot nonterminal `nt`.
pub open spec fn postdot_item_wf(g: Grammar, it: EarleyItem, nt: u32, k: int) -> bool {
    &&& item_wf(g, it, k)
    &&& item_node(g, it) == Node::Nonterminal(nt)
}

pub open spec fn postdot_entry_wf(g: Grammar, e: PostDotItems, nt: u32, k: int) -> bool {
    match e {
        PostDotItems::LeoEligible(it) => postdot_item_wf(g, it, nt, k) && completes_on_advance(
            g,
            it,
        ),
        PostDotItems::NormalItems(v) => forall|i: int|
            0 <= i < v@.len() ==> postdot_item_wf(g, #[trigger] v@[i], nt, k),
    }
}

/// The chart's items as a whole: each row holds well-formed items, once each.
pub open spec fn rows_wf(g: Grammar, rows: Seq<Seq<EarleyItem>>) -> bool {
    &&& forall|k: int, j: int|
        0 <= k < rows.len() && 0 <= j < rows[k].len() ==> item_wf(g, #[trigger] rows[k][j], k)
    &&& forall|k: int| 0 <= k < rows.len() ==> (#[trigger] rows[k]).no_duplicates()
}

pub open spec fn postdot_wf(g: Grammar, postdot: Seq<Map<u32, PostDotItems>>) -> bool {
    forall|k: int, nt: u32|
        0 <= k < postdot.len() && #[trigger] postdot[k].contains_key(nt) ==> postdot_entry_wf(
            g,
            postdot[k][nt],
            nt,
            k,
        )
}

pub open spec fn leo_wf(g: Grammar, leo: Seq<Map<u32, (u32, u32)>>) -> bool {
    forall|k: int, nt: u32|
        0 <= k < leo.len() && #[trigger] leo[k].contains_key(nt) ==> {
            &&& (leo[k][nt].0 as int) < g.nonterminal_count()
            &&& leo[k][nt].1 as int <= k
        }
}

/// Pending completions `(nonterminal, start)` that may be looked up from set `k`.
pub open spec fn keys_wf(g: Grammar, keys: Seq<(u32, u32)>, k: int) -> bool {
    forall|i: int|
        0 <= i < keys.len() ==> (#[trigger] keys[i]).0 < g.nonterminal_count() && keys[i].1 as int
            <= k
}

/// The automaton state held in sub-state word `s` under an `except!` node.
pub open spec fn excepted_dfa_state(fsa: Fsa, reps: Option<u32>, s: u32) -> int {
    match reps {
        None => s as int,
        Some(_) => (s as int) % (fsa.state_count() as int),
    }
}

/// Scanning `b` lets item `it` go on: the literal's next byte is `b`, or the
/// automaton does not reject after `b` (for an `except!` body: is still in
/// progress, as a match means the body occurred).
pub open spec fn scans(g: Grammar, it: EarleyItem, b: u8) -> bool {
    match item_node(g, it) {
        Node::Terminal(t) => g.spec_terminals()[t as int]@[it.state_id as int] == b,
        Node::RegexString(x) => {
            let fsa = g.spec_regexes()[x as int];
            fsa.spec_status(fsa.spec_next(it.state_id as int, b) as int) != FsaStatus::Reject
        },
        Node::Except(e, reps) => {
            let fsa = g.spec_excepteds()[e as int];
            fsa.spec_status(fsa.spec_next(excepted_dfa_state(fsa, reps, it.state_id), b) as int)
                == FsaStatus::InProgress
        },
        Node::Nonterminal(_) => false,
    }
}

/// Some item of `row` scans `b`.
pub open spec fn row_scans(g: Grammar, row: Seq<EarleyItem>, b: u8) -> bool {
    exists|j: int| 0 <= j < row.len() && scans(g, #[trigger] row[j], b)
}

/// A finite set of 64-bit integers below `b` has at most `b` elements.
pub(crate) proof fn lemma_u64_set_bounded(s: Set<u64>, b: int)
    requires
        s.finite(),
        b >= 0,
        forall|x: u64| s.contains(x) ==> (x as int) < b,
    ensures
        s.len() <= b,
    decreases b,
{
    if b == 0 {
        assert(s =~= Set::<u64>::empty());
    } else {
        let s2 = s.remove((b - 1) as u64);
        assert forall|x: u64| s2.contains(x) implies (x as int) < b - 1 by {
            if b - 1 <= u64::MAX {
                assert(x != (b - 1) as u64);
            }
        }
        lemma_u64_set_bounded(s2, b - 1);
        if s.contains((b - 1) as u64) {
            assert(s.len() == s2.len() + 1);
        } else {
            assert(s2 =~= s);
        }
    }
}

/// The bytes on which `fsa` steps from `s` to a state that does not reject.
pub open spec fn viable_bytes(fsa: Fsa, s: int) -> Set<int> {
    Set::new(
        |b: int| 0 <= b < 256 && fsa.spec_status(fsa.spec_next(s, b as u8) as int) != FsaStatus::Reject,
    )
}

/// The sub-state word that a node starts in: the start state of its automaton,
/// with the full repetition count for a bounded `except!`.
pub open spec fn init_state(g: Grammar, node: Node) -> u32 {
    match node {
        Node::RegexString(x) => g.spec_regexes()[x as int].start,
        Node::Except(e, reps) => match reps {
            None => g.spec_excepteds()[e as int].start,
            Some(r) => ((r as int) * (g.spec_excepteds()[e as int].state_count() as int)
                + g.spec_excepteds()[e as int].start as int) as u32,
        },
        _ => 0,
    }
}

/// The item that Predict adds for production `p` of `n` in Earley set `k`.
pub open spec fn predicted_item(g: Grammar, n: u32, p: int, k: int) -> EarleyItem {
    EarleyItem {
        nonterminal_id: n,
        dot_position: 0,
        production_index: p as u32,
        start_position: k as u32,
        state_id: init_state(g, g.spec_node(n as int, p, 0)),
    }
}

/// `row`, as Earley set `k`, holds the prediction of every production of `n`.
pub open spec fn has_predictions(g: Grammar, row: Seq<EarleyItem>, n: u32, k: int) -> bool {
    forall|p: int|
        0 <= p < g.production_count(n as int) ==> #[trigger] row.contains(predicted_item(g, n, p, k))
}

/// `row`, as Earley set `k`, is closed under Predict: every nonterminal under
/// a dot has all its productions predicted.
pub open spec fn predict_closed(g: Grammar, row: Seq<EarleyItem>, k: int) -> bool {
    forall|j: int|
        0 <= j < row.len() ==> match item_node(g, #[trigger] row[j]) {
            Node::Nonterminal(n) => has_predictions(g, row, n, k),
            _ => true,
        }
}

/// Every Earley set is closed under Predict.
pub open spec fn rows_closed(g: Grammar, rows: Seq<Seq<EarleyItem>>) -> bool {
    forall|k: int| 0 <= k < rows.len() ==> predict_closed(g, #[trigger] rows[k], k)
}

/// What a row holds, a longer row that begins with it holds too.
pub(crate) proof fn lemma_prefix_contains(short: Seq<EarleyItem>, long: Seq<EarleyItem>, it: EarleyItem)
    requires
        long.len() >= short.len(),
        long.take(short.len() as int) == short,
        short.contains(it),
    ensures
        long.contains(it),
{
    let j = choose|j: int| 0 <= j < short.len() && short[j] == it;
    assert(long.take(short.len() as int)[j] == it);
}

/// Predictions that a row holds, a longer row that begins with it holds too.
pub(crate) proof fn lemma_prefix_has_predictions(
    g: Grammar,
    short: Seq<EarleyItem>,
    long: Seq<EarleyItem>,
    n: u32,
    k: int,
)
    requires
        long.len() >= short.len(),
        long.take(short.len() as int) == short,
        has_predictions(g, short, n, k),
    ensures
        has_predictions(g, long, n, k),
{
    assert forall|p: int| 0 <= p < g.production_count(n as int) implies #[trigger] long.contains(
        predicted_item(g, n, p, k),
    ) by {
        lemma_prefix_contains(short, long, predicted_item(g, n, p, k));
    }
}

/// `it` with the dot moved one node on, in the start state of that node.
pub open spec fn advanced_item(g: Grammar, it: EarleyItem) -> EarleyItem {
    EarleyItem {
        nonterminal_id: it.nonterminal_id,
        dot_position: (it.dot_position + 1) as u32,
        production_index: it.production_index,
        start_position: it.start_position,
        state_id: init_state(
            g,
            g.spec_node(
                it.nonterminal_id as int,
                it.production_index as int,
                it.dot_position as int + 1,
            ),
        ),
    }
}

/// `it` with sub-state word `s`.
pub open spec fn with_state(it: EarleyItem, s: u32) -> EarleyItem {
    EarleyItem {
        nonterminal_id: it.nonterminal_id,
        dot_position: it.dot_position,
        production_index: it.production_index,
        start_position: it.start_position,
        state_id: s,
    }
}

/// What Scan keeps of `it` under the same node on byte `b`: the literal one
/// byte further, or the automaton in its next state while a longer match may
/// follow (for a bounded `except!`, while repetitions remain).
pub open spec fn scan_moved(g: Grammar, it: EarleyItem, b: u8) -> Option<EarleyItem> {
    match item_node(g, it) {
        Node::Terminal(t) => {
            let term = g.spec_terminals()[t as int]@;
            if term[it.state_id as int] == b && it.state_id as int + 1 < term.len() {
                Some(with_state(it, (it.state_id + 1) as u32))
            } else {
                None
            }
        },
        Node::RegexString(x) => {
            let fsa = g.spec_regexes()[x as int];
            let s2 = fsa.spec_next(it.state_id as int, b);
            if fsa.spec_status(s2 as int) != FsaStatus::Reject {
                Some(with_state(it, s2))
            } else {
                None
            }
        },
        Node::Except(e, reps) => {
            let fsa = g.spec_excepteds()[e as int];
            let n = fsa.state_count() as int;
            let s2 = fsa.spec_next(excepted_dfa_state(fsa, reps, it.state_id), b);
            if fsa.spec_status(s2 as int) != FsaStatus::InProgress {
                None
            } else {
                match reps {
                    None => Some(with_state(it, s2)),
                    Some(_) => {
                        let rem = (it.state_id as int) / n;
                        if rem > 0 {
                            Some(with_state(it, ((rem - 1) * n + s2 as int) as u32))
                        } else {
                            None
                        }
                    },
                }
            }
        },
        Node::Nonterminal(_) => None,
    }
}

/// Scan moves the dot of `it` past its node on byte `b`: the literal's last
/// byte, or a match of the automaton that ends here (for `except!`: any
/// byte after which the body has not occurred).
pub open spec fn scan_advances(g: Grammar, it: EarleyItem, b: u8) -> bool {
    match item_node(g, it) {
        Node::Terminal(t) => {
            let term = g.spec_terminals()[t as int]@;
            term[it.state_id as int] == b && it.state_id as int + 1 == term.len()
        },
        Node::RegexString(x) => {
            let fsa = g.spec_regexes()[x as int];
            fsa.spec_status(fsa.spec_next(it.state_id as int, b) as int) == FsaStatus::Accept
        },
        Node::Except(e, reps) => scans(g, it, b),
        Node::Nonterminal(_) => false,
    }
}

/// The new Earley set `row` holds the items that Scan makes of `it` on `b`.
pub open spec fn scanned_into(g: Grammar, it: EarleyItem, b: u8, row: Seq<EarleyItem>) -> bool {
    &&& scan_moved(g, it, b) matches Some(m) ==> row.contains(m)
    &&& scan_advances(g, it, b) && !completes_on_advance(g, it) ==> row.contains(
        advanced_item(g, it),
    )
}

/// The new Earley set `row` and the pending completions `keys` hold what Scan
/// makes of `it` on `b`.
pub open spec fn scan_done(
    g: Grammar,
    it: EarleyItem,
    b: u8,
    row: Seq<EarleyItem>,
    keys: Seq<(u32, u32)>,
) -> bool {
    &&& scan_moved(g, it, b) matches Some(m) ==> row.contains(m)
    &&& scan_advances(g, it, b) && !completes_on_advance(g, it) ==> row.contains(
        advanced_item(g, it),
    )
    &&& scan_advances(g, it, b) && completes_on_advance(g, it) ==> keys.contains(
        (it.nonterminal_id, it.start_position),
    )
}

/// What Scan made of an item stays made when the set and the pending
/// completions only grow at their ends.
pub(crate) proof fn lemma_scan_done_grows(
    g: Grammar,
    it: EarleyItem,
    b: u8,
    row1: Seq<EarleyItem>,
    keys1: Seq<(u32, u32)>,
    row2: Seq<EarleyItem>,
    keys2: Seq<(u32, u32)>,
)
    requires
        scan_done(g, it, b, row1, keys1),
        row2.len() >= row1.len(),
        row2.take(row1.len() as int) == row1,
        keys2.len() >= keys1.len(),
        keys2.take(keys1.len() as int) == keys1,
    ensures
        scan_done(g, it, b, row2, keys2),
{
    if let Some(m) = scan_moved(g, it, b) {
        lemma_prefix_contains(row1, row2, m);
    }
    if scan_advances(g, it, b) && !completes_on_advance(g, it) {
        lemma_prefix_contains(row1, row2, advanced_item(g, it));
    }
    if scan_advances(g, it, b) && completes_on_advance(g, it) {
        let key = (it.nonterminal_id, it.start_position);
        let j = choose|j: int| 0 <= j < keys1.len() && keys1[j] == key;
        assert(keys2.take(keys1.len() as int)[j] == key);
    }
}

/// The completion that the Leo-eligible postdot entry of `key` leads to: its
/// only item completes as soon as `key` does.
pub open spec fn leo_next(pd: Seq<Map<u32, PostDotItems>>, key: (u32, u32)) -> Option<(u32, u32)> {
    if (key.1 as int) < pd.len() && pd[key.1 as int].contains_key(key.0) {
        match pd[key.1 as int][key.0] {
            PostDotItems::LeoEligible(it) => Some((it.nonterminal_id, it.start_position)),
            PostDotItems::NormalItems(_) => None,
        }
    } else {
        None
    }
}

/// The key `i` steps along the chain of Leo-eligible entries from `key`.
pub open spec fn leo_iter(pd: Seq<Map<u32, PostDotItems>>, key: (u32, u32), i: nat) -> Option<
    (u32, u32),
>
    decreases i,
{
    if i == 0 {
        Some(key)
    } else {
        match leo_iter(pd, key, (i - 1) as nat) {
            Some(k) => leo_next(pd, k),
            None => None,
        }
    }
}

/// `top` lies `m >= 1` steps along the Leo chain of `key`, and no key before it
/// is `fin`.
pub open spec fn leo_chain(
    pd: Seq<Map<u32, PostDotItems>>,
    key: (u32, u32),
    top: (u32, u32),
    m: nat,
    fin: (u32, u32),
) -> bool {
    &&& m >= 1
    &&& leo_iter(pd, key, m) == Some(top)
    &&& forall|i: nat| #![trigger leo_iter(pd, key, i)] i < m ==> leo_iter(pd, key, i) is Some
        && leo_iter(pd, key, i)->0 != fin
}

/// `top` lies one or more steps along the Leo chain of `key`, past no `fin`.
pub open spec fn leo_reaches(
    pd: Seq<Map<u32, PostDotItems>>,
    key: (u32, u32),
    top: (u32, u32),
    fin: (u32, u32),
) -> bool {
    exists|m: nat| #[trigger] leo_chain(pd, key, top, m, fin)
}

/// Every memoized Leo completion is the top of the chain of its key.
pub open spec fn memo_valid(
    pd: Seq<Map<u32, PostDotItems>>,
    leo: Seq<Map<u32, (u32, u32)>>,
    fin: (u32, u32),
) -> bool {
    forall|o: int, nt: u32|
        0 <= o < leo.len() && #[trigger] leo[o].contains_key(nt) ==> leo_end(pd, leo[o][nt], fin)
            && exists|m: nat| #[trigger] leo_chain(pd, (nt, o as u32), leo[o][nt], m, fin)
}

/// `top` ends a Leo chain: it is `fin`, or its entry is not Leo-eligible.
pub open spec fn leo_end(pd: Seq<Map<u32, PostDotItems>>, top: (u32, u32), fin: (u32, u32)) -> bool {
    top == fin || leo_next(pd, top) is None
}

/// Within `f` steps, the Leo chain of `key` reaches a key that ends it.
pub open spec fn leo_ends_within(
    pd: Seq<Map<u32, PostDotItems>>,
    key: (u32, u32),
    fin: (u32, u32),
    f: nat,
) -> bool {
    exists|m: nat, top: (u32, u32)|
        m <= f && #[trigger] leo_chain(pd, key, top, m, fin) && leo_end(pd, top, fin)
}

/// The completion of `key` has been carried out into `row`: every item waiting
/// on it in its column is advanced into `row`, or, if that completes the item,
/// its own completion is in `done` or `pending`.
pub open spec fn completed_into(
    g: Grammar,
    pd: Seq<Map<u32, PostDotItems>>,
    key: (u32, u32),
    done: Set<(u32, u32)>,
    pending: Seq<(u32, u32)>,
    row: Seq<EarleyItem>,
) -> bool {
    (key.1 as int) < pd.len() && pd[key.1 as int].contains_key(key.0) ==> match pd[key.1 as int][key.0] {
        PostDotItems::LeoEligible(it) => done.contains((it.nonterminal_id, it.start_position))
            || pending.contains((it.nonterminal_id, it.start_position)),
        PostDotItems::NormalItems(v) => forall|i: int|
            0 <= i < v@.len() ==> if completes_on_advance(g, #[trigger] v@[i]) {
                done.contains((v@[i].nonterminal_id, v@[i].start_position)) || pending.contains(
                    (v@[i].nonterminal_id, v@[i].start_position),
                )
            } else {
                row.contains(advanced_item(g, v@[i]))
            },
    }
}

/// `done` is the least set of completions that holds `initial` and is closed
/// under consequences; each is carried out into `row`, and the input is
/// finished exactly when `fin` is among them.
pub open spec fn completion_fixpoint(
    g: Grammar,
    pd: Seq<Map<u32, PostDotItems>>,
    initial: Seq<(u32, u32)>,
    done: Set<(u32, u32)>,
    row: Seq<EarleyItem>,
    fin: (u32, u32),
    finished: bool,
) -> bool {
    &&& forall|x: (u32, u32)| #[trigger] initial.contains(x) ==> done.contains(x)
    &&& forall|x: (u32, u32)|
        #[trigger] done.contains(x) ==> completed_into(g, pd, x, done, Seq::empty(), row)
    &&& finished <==> done.contains(fin)
    &&& forall|ks: Set<(u32, u32)>|
        #[trigger] keys_closed(g, pd, ks) && (forall|x: (u32, u32)|
            initial.contains(x) ==> ks.contains(x)) ==> done.subset_of(ks)
}

/// After a byte `b` read from Earley set `old_row`: `done` is the least set of
/// completions that holds those Scan starts and is closed under consequences
/// (items looked up in the columns `pd` before the new set); each is carried
/// out into the new set `row`, and the input is finished exactly when `fin` is
/// among them.
pub open spec fn completed_step(
    g: Grammar,
    pd: Seq<Map<u32, PostDotItems>>,
    old_row: Seq<EarleyItem>,
    b: u8,
    done: Set<(u32, u32)>,
    row: Seq<EarleyItem>,
    fin: (u32, u32),
    finished: bool,
) -> bool {
    &&& forall|j: int|
        0 <= j < old_row.len() && scan_advances(g, #[trigger] old_row[j], b) && completes_on_advance(
            g,
            old_row[j],
        ) ==> done.contains((old_row[j].nonterminal_id, old_row[j].start_position))
    &&& forall|x: (u32, u32)|
        #[trigger] done.contains(x) ==> completed_into(g, pd, x, done, Seq::empty(), row)
    &&& finished <==> done.contains(fin)
    &&& forall|ks: Set<(u32, u32)>|
        #[trigger] keys_closed(g, pd, ks) && (forall|j: int|
            0 <= j < old_row.len() && scan_advances(g, #[trigger] old_row[j], b)
                && completes_on_advance(g, old_row[j]) ==> ks.contains(
                (old_row[j].nonterminal_id, old_row[j].start_position),
            )) ==> done.subset_of(ks)
}

/// A completion carried out over one more column was carried out over the
/// columns before it.
pub(crate) proof fn lemma_completed_into_drop_column(
    g: Grammar,
    pd: Seq<Map<u32, PostDotItems>>,
    e: Map<u32, PostDotItems>,
    key: (u32, u32),
    done: Set<(u32, u32)>,
    pending: Seq<(u32, u32)>,
    row: Seq<EarleyItem>,
)
    requires
        completed_into(g, pd.push(e), key, done, pending, row),
    ensures
        completed_into(g, pd, key, done, pending, row),
{
    if (key.1 as int) < pd.len() {
        assert(pd.push(e)[key.1 as int] == pd[key.1 as int]);
    }
}

/// The completion `x` is among the immediate consequences of completing `key`:
/// the completion its Leo-eligible entry leads to, or that of an item waiting
/// on it that it completes.
pub open spec fn completion_follows(
    g: Grammar,
    pd: Seq<Map<u32, PostDotItems>>,
    key: (u32, u32),
    x: (u32, u32),
) -> bool {
    &&& (key.1 as int) < pd.len()
    &&& pd[key.1 as int].contains_key(key.0)
    &&& match pd[key.1 as int][key.0] {
        PostDotItems::LeoEligible(it) => x == (it.nonterminal_id, it.start_position),
        PostDotItems::NormalItems(v) => exists|i: int|
            0 <= i < v@.len() && completes_on_advance(g, #[trigger] v@[i]) && x == (
                v@[i].nonterminal_id,
                v@[i].start_position,
            ),
    }
}

/// `ks` holds every consequence of each of its completions.
pub open spec fn keys_closed(g: Grammar, pd: Seq<Map<u32, PostDotItems>>, ks: Set<(u32, u32)>) -> bool {
    forall|key: (u32, u32), x: (u32, u32)|
        #[trigger] ks.contains(key) && #[trigger] completion_follows(g, pd, key, x) ==> ks.contains(x)
}

/// Closure under consequences does not see an empty column added at the end.
pub(crate) proof fn lemma_keys_closed_push_empty(
    g: Grammar,
    pd: Seq<Map<u32, PostDotItems>>,
    ks: Set<(u32, u32)>,
)
    requires
        keys_closed(g, pd, ks),
    ensures
        keys_closed(g, pd.push(Map::empty()), ks),
{
    let pd2 = pd.push(Map::empty());
    assert forall|key: (u32, u32), x: (u32, u32)|
        #[trigger] ks.contains(key) && #[trigger] completion_follows(g, pd2, key, x) implies ks.contains(
        x,
    ) by {
        assert(pd2[key.1 as int].contains_key(key.0));
        if (key.1 as int) == pd.len() {
            assert(pd2[key.1 as int] == Map::<u32, PostDotItems>::empty());
        } else {
            assert(pd2[key.1 as int] == pd[key.1 as int]);
            assert(completion_follows(g, pd, key, x));
        }
    }
}

/// A set closed under consequences holds the whole Leo chain of each of its keys.
pub(crate) proof fn lemma_leo_iter_closed(
    g: Grammar,
    pd: Seq<Map<u32, PostDotItems>>,
    ks: Set<(u32, u32)>,
    key: (u32, u32),
    i: nat,
)
    requires
        keys_closed(g, pd, ks),
        ks.contains(key),
    ensures
        leo_iter(pd, key, i) matches Some(y) ==> ks.contains(y),
    decreases i,
{
    if i > 0 {
        lemma_leo_iter_closed(g, pd, ks, key, (i - 1) as nat);
        if let Some(k) = leo_iter(pd, key, (i - 1) as nat) {
            if let Some(y) = leo_next(pd, k) {
                assert(completion_follows(g, pd, k, y));
            }
        }
    }
}

/// The number that identifies a pending completion in a set of 64-bit values.
pub open spec fn key_code(key: (u32, u32)) -> u64 {
    ((key.1 as int) * (STATE_WORD_RANGE as int) + key.0 as int) as u64
}

/// A carried-out completion stays carried out as the row, the done set and
/// the pending completions grow.
pub(crate) proof fn lemma_completed_into_grows(
    g: Grammar,
    pd: Seq<Map<u32, PostDotItems>>,
    key: (u32, u32),
    done1: Set<(u32, u32)>,
    pending1: Seq<(u32, u32)>,
    row1: Seq<EarleyItem>,
    done2: Set<(u32, u32)>,
    pending2: Seq<(u32, u32)>,
    row2: Seq<EarleyItem>,
)
    requires
        completed_into(g, pd, key, done1, pending1, row1),
        row2.len() >= row1.len(),
        row2.take(row1.len() as int) == row1,
        forall|x: (u32, u32)|
            done1.contains(x) || pending1.contains(x) ==> done2.contains(x) || pending2.contains(x),
    ensures
        completed_into(g, pd, key, done2, pending2, row2),
{
    if (key.1 as int) < pd.len() && pd[key.1 as int].contains_key(key.0) {
        match pd[key.1 as int][key.0] {
            PostDotItems::LeoEligible(it) => {},
            PostDotItems::NormalItems(v) => {
                assert forall|i: int| 0 <= i < v@.len() implies if completes_on_advance(
                    g,
                    #[trigger] v@[i],
                ) {
                    done2.contains((v@[i].nonterminal_id, v@[i].start_position)) || pending2.contains(
                        (v@[i].nonterminal_id, v@[i].start_position),
                    )
                } else {
                    row2.contains(advanced_item(g, v@[i]))
                } by {
                    if !completes_on_advance(g, v@[i]) {
                        lemma_prefix_contains(row1, row2, advanced_item(g, v@[i]));
                    }
                }
            },
        }
    }
}

/// The Leo chain of a key in column `o` reads only the columns up to `o`.
pub(crate) proof fn lemma_leo_iter_frame(
    g: Grammar,
    pd1: Seq<Map<u32, PostDotItems>>,
    pd2: Seq<Map<u32, PostDotItems>>,
    key: (u32, u32),
    i: nat,
)
    requires
        postdot_wf(g, pd1),
        (key.1 as int) < pd1.len(),
        pd2.len() > key.1,
        pd1.take(key.1 as int + 1) == pd2.take(key.1 as int + 1),
    ensures
        leo_iter(pd1, key, i) == leo_iter(pd2, key, i),
        leo_iter(pd1, key, i) matches Some(k) ==> k.1 <= key.1,
    decreases i,
{
    if i > 0 {
        lemma_leo_iter_frame(g, pd1, pd2, key, (i - 1) as nat);
        match leo_iter(pd1, key, (i - 1) as nat) {
            Some(k) => {
                assert(pd1[k.1 as int] == pd1.take(key.1 as int + 1)[k.1 as int]);
                assert(pd2[k.1 as int] == pd2.take(key.1 as int + 1)[k.1 as int]);
                if pd1[k.1 as int].contains_key(k.0) {
                    assert(postdot_entry_wf(g, pd1[k.1 as int][k.0], k.0, k.1 as int));
                }
            },
            None => {},
        }
    }
}

/// Memoized chains stay valid when the columns they read stay.
pub(crate) proof fn lemma_memo_valid_frame(
    g: Grammar,
    pd1: Seq<Map<u32, PostDotItems>>,
    leo1: Seq<Map<u32, (u32, u32)>>,
    pd2: Seq<Map<u32, PostDotItems>>,
    leo2: Seq<Map<u32, (u32, u32)>>,
    fin: (u32, u32),
)
    requires
        memo_valid(pd1, leo1, fin),
        postdot_wf(g, pd1),
        leo1.len() == pd1.len(),
        pd1.len() <= u32::MAX,
        leo2.len() <= pd2.len(),
        forall|o: int| 0 <= o < leo2.len() ==> #[trigger] leo2[o] == Map::<u32, (u32, u32)>::empty() || (
            o < leo1.len() && leo2[o] == leo1[o] && pd1.take(o + 1) == pd2.take(o + 1)),
    ensures
        memo_valid(pd2, leo2, fin),
{
    assert forall|o: int, nt: u32|
        0 <= o < leo2.len() && #[trigger] leo2[o].contains_key(nt) implies leo_end(pd2, leo2[o][nt], fin)
        && exists|m: nat|
        #[trigger] leo_chain(pd2, (nt, o as u32), leo2[o][nt], m, fin) by {
        assert(leo2[o] != Map::<u32, (u32, u32)>::empty());
        assert(leo1[o].contains_key(nt));
        assert((o as u32) as int == o);
        let m = choose|m: nat| #[trigger] leo_chain(pd1, (nt, o as u32), leo1[o][nt], m, fin);
        assert forall|i: nat| #![trigger leo_iter(pd2, (nt, o as u32), i)]
            i <= m implies leo_iter(pd2, (nt, o as u32), i) == leo_iter(pd1, (nt, o as u32), i) by {
            lemma_leo_iter_frame(g, pd1, pd2, (nt, o as u32), i);
        }
        assert(leo_chain(pd2, (nt, o as u32), leo2[o][nt], m, fin));
        let top = leo2[o][nt];
        assert(leo1[o][nt] == top);
        lemma_leo_iter_frame(g, pd1, pd2, (nt, o as u32), m);
        assert(top.1 <= o as u32);
        assert(pd1[top.1 as int] == pd1.take(o + 1)[top.1 as int]);
        assert(pd2[top.1 as int] == pd2.take(o + 1)[top.1 as int]);
        assert(leo_next(pd1, top) == leo_next(pd2, top));
    }
}

/// Walking `i` steps and then `j` more is walking `i + j` steps.
pub(crate) proof fn lemma_leo_iter_shift(
    pd: Seq<Map<u32, PostDotItems>>,
    key: (u32, u32),
    mid: (u32, u32),
    i: nat,
    j: nat,
)
    requires
        leo_iter(pd, key, i) == Some(mid),
    ensures
        leo_iter(pd, mid, j) == leo_iter(pd, key, i + j),
    decreases j,
{
    if j > 0 {
        lemma_leo_iter_shift(pd, key, mid, i, (j - 1) as nat);
        assert((i + j - 1) as nat == i + (j - 1) as nat);
    }
}

/// `it` is an item that completing `key` advances: one that waits on it in its
/// column, and is not itself completed by that.
pub open spec fn advanced_by_completion(
    g: Grammar,
    pd: Seq<Map<u32, PostDotItems>>,
    key: (u32, u32),
    it: EarleyItem,
) -> bool {
    &&& (key.1 as int) < pd.len()
    &&& pd[key.1 as int].contains_key(key.0)
    &&& match pd[key.1 as int][key.0] {
        PostDotItems::LeoEligible(_) => false,
        PostDotItems::NormalItems(v) => exists|i: int|
            0 <= i < v@.len() && !completes_on_advance(g, #[trigger] v@[i]) && it == advanced_item(
                g,
                v@[i],
            ),
    }
}

/// Scan makes `it` of an item of `old_row` on byte `b`.
pub open spec fn scanned_from(g: Grammar, old_row: Seq<EarleyItem>, b: u8, it: EarleyItem) -> bool {
    exists|j: int|
        0 <= j < old_row.len() && (scan_moved(g, #[trigger] old_row[j], b) == Some(it) || (
        scan_advances(g, old_row[j], b) && !completes_on_advance(g, old_row[j]) && it
            == advanced_item(g, old_row[j])))
}

/// `it` may stand in the new Earley set `k`, after byte `b` read from
/// `old_row`, with the completions `done` and the items `earlier` before it:
/// Scan made it of an item of `old_row`, or completing a key of `done`
/// advanced it, or Predict made it for a nonterminal under the dot of an
/// earlier item.
pub open spec fn item_justified(
    g: Grammar,
    pd: Seq<Map<u32, PostDotItems>>,
    old_row: Seq<EarleyItem>,
    b: u8,
    done: Set<(u32, u32)>,
    k: int,
    earlier: Seq<EarleyItem>,
    it: EarleyItem,
) -> bool {
    ||| scanned_from(g, old_row, b, it)
    ||| exists|key: (u32, u32)|
        #[trigger] done.contains(key) && advanced_by_completion(g, pd, key, it)
    ||| {
        &&& (it.production_index as int) < g.production_count(it.nonterminal_id as int)
        &&& it == predicted_item(g, it.nonterminal_id, it.production_index as int, k)
        &&& exists|j: int|
            0 <= j < earlier.len() && item_node(g, #[trigger] earlier[j]) == Node::Nonterminal(
                it.nonterminal_id,
            )
    }
}

/// Every item of the new Earley set `row` is justified by those before it.
pub open spec fn rows_justified(
    g: Grammar,
    pd: Seq<Map<u32, PostDotItems>>,
    old_row: Seq<EarleyItem>,
    b: u8,
    done: Set<(u32, u32)>,
    k: int,
    row: Seq<EarleyItem>,
) -> bool {
    forall|j: int|
        0 <= j < row.len() ==> item_justified(g, pd, old_row, b, done, k, row.take(j), #[trigger] row[j])
}

/// Justified items stay justified as the completions grow, and a justified
/// item may be appended.
pub(crate) proof fn lemma_rows_justified_grow(
    g: Grammar,
    pd: Seq<Map<u32, PostDotItems>>,
    old_row: Seq<EarleyItem>,
    b: u8,
    done1: Set<(u32, u32)>,
    done2: Set<(u32, u32)>,
    k: int,
    row1: Seq<EarleyItem>,
    row2: Seq<EarleyItem>,
)
    requires
        rows_justified(g, pd, old_row, b, done1, k, row1),
        done1.subset_of(done2),
        row2 == row1 || (row2.len() == row1.len() + 1 && row2.take(row1.len() as int) == row1
            && item_justified(g, pd, old_row, b, done2, k, row1, row2.last())),
    ensures
        rows_justified(g, pd, old_row, b, done2, k, row2),
{
    assert forall|j: int| 0 <= j < row2.len() implies item_justified(
        g,
        pd,
        old_row,
        b,
        done2,
        k,
        row2.take(j),
        #[trigger] row2[j],
    ) by {
        if j < row1.len() {
            assert(row2[j] == row1[j]);
            assert(row2.take(j) =~= row1.take(j));
            let it = row1[j];
            if exists|i: int|
                0 <= i < row1.take(j).len() && item_node(g, #[trigger] row1.take(j)[i]) == Node::Nonterminal(
                    it.nonterminal_id,
                ) {
                let i = choose|i: int|
                    0 <= i < row1.take(j).len() && item_node(g, #[trigger] row1.take(j)[i]) == Node::Nonterminal(
                        it.nonterminal_id,
                    );
                assert(row2.take(j)[i] == row1.take(j)[i]);
            }
            assert(item_justified(g, pd, old_row, b, done1, k, row1.take(j), it));
            if exists|key: (u32, u32)| #[trigger] done1.contains(key) && advanced_by_completion(g, pd, key, it) {
                let key = choose|key: (u32, u32)| #[trigger] done1.contains(key) && advanced_by_completion(g, pd, key, it);
                assert(done2.contains(key));
            }
        } else {
            assert(row2.take(j) =~= row1);
        }
    }
}

/// Justification by completion does not see an empty column added at the end.
pub(crate) proof fn lemma_rows_justified_drop_column(
    g: Grammar,
    pd: Seq<Map<u32, PostDotItems>>,
    old_row: Seq<EarleyItem>,
    b: u8,
    done: Set<(u32, u32)>,
    k: int,
    row: Seq<EarleyItem>,
)
    requires
        rows_justified(g, pd.push(Map::empty()), old_row, b, done, k, row),
    ensures
        rows_justified(g, pd, old_row, b, done, k, row),
{
    let pd2 = pd.push(Map::empty());
    assert forall|j: int| 0 <= j < row.len() implies item_justified(
        g,
        pd,
        old_row,
        b,
        done,
        k,
        row.take(j),
        #[trigger] row[j],
    ) by {
        let it = row[j];
        assert(item_justified(g, pd2, old_row, b, done, k, row.take(j), it));
        if exists|key: (u32, u32)| #[trigger] done.contains(key) && advanced_by_completion(g, pd2, key, it) {
            let key = choose|key: (u32, u32)| #[trigger] done.contains(key) && advanced_by_completion(g, pd2, key, it);
            if (key.1 as int) == pd.len() {
                assert(pd2[key.1 as int] == Map::<u32, PostDotItems>::empty());
            } else {
                assert(pd2[key.1 as int] == pd[key.1 as int]);
                assert(advanced_by_completion(g, pd, key, it));
            }
        }
    }
}

/// Item `j` of `row`, as Earley set `k`, is a prediction for the nonterminal
/// under the dot of an item before it.
pub open spec fn predicted_at(g: Grammar, row: Seq<EarleyItem>, j: int, k: int) -> bool {
    let it = row[j];
    &&& (it.production_index as int) < g.production_count(it.nonterminal_id as int)
    &&& it == predicted_item(g, it.nonterminal_id, it.production_index as int, k)
    &&& exists|i: int| 0 <= i < j && item_node(g, #[trigger] row[i]) == Node::Nonterminal(it.nonterminal_id)
}

/// Completing some key of `done` advances to `x`.
pub open spec fn advanced_by_some(
    g: Grammar,
    pd: Seq<Map<u32, PostDotItems>>,
    done: Set<(u32, u32)>,
    x: EarleyItem,
) -> bool {
    exists|key: (u32, u32)| #[trigger] done.contains(key) && advanced_by_completion(g, pd, key, x)
}

/// The postdot entry `e` lists `it`.
pub open spec fn entry_lists(e: PostDotItems, it: EarleyItem) -> bool {
    match e {
        PostDotItems::LeoEligible(x) => x == it,
        PostDotItems::NormalItems(v) => v@.contains(it),
    }
}

/// `m` indexes `row` exactly: a nonterminal has an entry when some item waits
/// on it, the entry lists exactly the items that wait on it, and it is
/// Leo-eligible exactly when one item waits on it and advancing it completes it.
pub open spec fn index_exact(g: Grammar, row: Seq<EarleyItem>, m: Map<u32, PostDotItems>) -> bool {
    &&& forall|nt: u32|
        #![trigger m.contains_key(nt)]
        m.contains_key(nt) <==> exists|j: int|
            0 <= j < row.len() && item_node(g, #[trigger] row[j]) == Node::Nonterminal(nt)
    &&& forall|nt: u32, it: EarleyItem|
        #![trigger m.contains_key(nt), entry_lists(m[nt], it)]
        m.contains_key(nt) ==> (entry_lists(m[nt], it) <==> (row.contains(it) && item_node(g, it)
            == Node::Nonterminal(nt)))
    &&& forall|nt: u32|
        #![trigger m.contains_key(nt)]
        m.contains_key(nt) ==> match m[nt] {
            PostDotItems::LeoEligible(x) => completes_on_advance(g, x) && forall|j: int|
                0 <= j < row.len() && item_node(g, #[trigger] row[j]) == Node::Nonterminal(nt)
                    ==> row[j] == x,
            PostDotItems::NormalItems(v) => v@.len() >= 2 || (v@.len() == 1
                && !completes_on_advance(g, v@[0])),
        }
}

/// The postdot columns below `n` index their Earley sets exactly.
pub open spec fn indexes_below(
    g: Grammar,
    rows: Seq<Seq<EarleyItem>>,
    pd: Seq<Map<u32, PostDotItems>>,
    n: int,
) -> bool {
    forall|k: int| 0 <= k < n ==> index_exact(g, #[trigger] rows[k], pd[k])
}

/// Indexing one more item of a set: an item under no nonterminal leaves the
/// index as it is; one under `nt` joins the entry of `nt`.
pub(crate) proof fn lemma_index_step(
    g: Grammar,
    row: Seq<EarleyItem>,
    i: int,
    m: Map<u32, PostDotItems>,
    m2: Map<u32, PostDotItems>,
)
    requires
        0 <= i < row.len(),
        row.no_duplicates(),
        index_exact(g, row.take(i), m),
        match item_node(g, row[i]) {
            Node::Nonterminal(nt) => {
                &&& forall|x: u32| #![trigger m2.contains_key(x)] x != nt ==> (m2.contains_key(x)
                    == m.contains_key(x) && (m.contains_key(x) ==> m2[x] == m[x]))
                &&& m2.contains_key(nt)
                &&& forall|x: EarleyItem| #![trigger entry_lists(m2[nt], x)]
                    entry_lists(m2[nt], x) <==> ((m.contains_key(nt) && entry_lists(m[nt], x)) || x
                        == row[i])
                &&& match m2[nt] {
                    PostDotItems::LeoEligible(x) => x == row[i] && !m.contains_key(nt)
                        && completes_on_advance(g, row[i]),
                    PostDotItems::NormalItems(v) => v@.len() >= 2 || (v@.len() == 1
                        && !completes_on_advance(g, v@[0])),
                }
            },
            _ => m2 == m,
        },
    ensures
        index_exact(g, row.take(i + 1), m2),
{
    let r1 = row.take(i);
    let r2 = row.take(i + 1);
    assert(r2 =~= r1.push(row[i]));
    let it = row[i];
    assert forall|x: EarleyItem| r2.contains(x) <==> (r1.contains(x) || x == it) by {
        if r2.contains(x) {
            let j = choose|j: int| 0 <= j < r2.len() && r2[j] == x;
            if j < i {
                assert(r1[j] == x);
            }
        }
        if r1.contains(x) {
            let j = choose|j: int| 0 <= j < r1.len() && r1[j] == x;
            assert(r2[j] == x);
        }
        if x == it {
            assert(r2[i] == x);
        }
    }
    assert(!r1.contains(it)) by {
        if r1.contains(it) {
            let j = choose|j: int| 0 <= j < r1.len() && r1[j] == it;
            assert(row[j] == row[i]);
        }
    }
    assert forall|nt: u32|
        #![trigger m2.contains_key(nt)]
        m2.contains_key(nt) <==> exists|j: int|
            0 <= j < r2.len() && item_node(g, #[trigger] r2[j]) == Node::Nonterminal(nt) by {
        if exists|j: int| 0 <= j < r1.len() && item_node(g, #[trigger] r1[j]) == Node::Nonterminal(nt) {
            let j = choose|j: int| 0 <= j < r1.len() && item_node(g, #[trigger] r1[j]) == Node::Nonterminal(nt);
            assert(r2[j] == r1[j]);
        }
        if exists|j: int| 0 <= j < r2.len() && item_node(g, #[trigger] r2[j]) == Node::Nonterminal(nt) {
            let j = choose|j: int| 0 <= j < r2.len() && item_node(g, #[trigger] r2[j]) == Node::Nonterminal(nt);
            if j < i {
                assert(r1[j] == r2[j]);
            }
        }
        if item_node(g, it) == Node::Nonterminal(nt) {
            assert(r2[i] == it);
        }
    }
    assert forall|nt: u32, x: EarleyItem|
        #![trigger m2.contains_key(nt), entry_lists(m2[nt], x)]
        m2.contains_key(nt) implies (entry_lists(m2[nt], x) <==> (r2.contains(x) && item_node(g, x)
            == Node::Nonterminal(nt))) by {
        match item_node(g, it) {
            Node::Nonterminal(n0) => {
                if nt != n0 {
                    assert(m.contains_key(nt));
                    assert(m2[nt] == m[nt]);
                    assert(entry_lists(m[nt], x) <==> (r1.contains(x) && item_node(g, x) == Node::Nonterminal(nt)));
                } else {
                    if m.contains_key(nt) {
                        assert(entry_lists(m[nt], x) <==> (r1.contains(x) && item_node(g, x) == Node::Nonterminal(nt)));
                    } else {
                        if r1.contains(x) && item_node(g, x) == Node::Nonterminal(nt) {
                            let j = choose|j: int| 0 <= j < r1.len() && r1[j] == x;
                            assert(item_node(g, r1[j]) == Node::Nonterminal(nt));
                        }
                    }
                }
            },
            _ => {
                assert(entry_lists(m[nt], x) <==> (r1.contains(x) && item_node(g, x) == Node::Nonterminal(nt)));
            },
        }
    }
    assert forall|nt: u32|
        #![trigger m2.contains_key(nt)]
        m2.contains_key(nt) implies match m2[nt] {
            PostDotItems::LeoEligible(x) => completes_on_advance(g, x) && forall|j: int|
                0 <= j < r2.len() && item_node(g, #[trigger] r2[j]) == Node::Nonterminal(nt)
                    ==> r2[j] == x,
            PostDotItems::NormalItems(v) => v@.len() >= 2 || (v@.len() == 1
                && !completes_on_advance(g, v@[0])),
        } by {
        match item_node(g, it) {
            Node::Nonterminal(n0) => {
                if nt != n0 {
                    assert(m2[nt] == m[nt]);
                    match m[nt] {
                        PostDotItems::LeoEligible(x) => {
                            assert forall|j: int|
                                0 <= j < r2.len() && item_node(g, #[trigger] r2[j]) == Node::Nonterminal(nt)
                                implies r2[j] == x by {
                                if j < i {
                                    assert(r2[j] == r1[j]);
                                }
                            }
                        },
                        _ => {},
                    }
                } else {
                    match m2[nt] {
                        PostDotItems::LeoEligible(x) => {
                            assert forall|j: int|
                                0 <= j < r2.len() && item_node(g, #[trigger] r2[j]) == Node::Nonterminal(nt)
                                implies r2[j] == x by {
                                if j < i {
                                    assert(r2[j] == r1[j]);
                                    assert(!m.contains_key(nt));
                                }
                            }
                        },
                        _ => {},
                    }
                }
            },
            _ => {
                match m[nt] {
                    PostDotItems::LeoEligible(x) => {
                        assert forall|j: int|
                            0 <= j < r2.len() && item_node(g, #[trigger] r2[j]) == Node::Nonterminal(nt)
                            implies r2[j] == x by {
                            if j < i {
                                assert(r2[j] == r1[j]);
                            }
                        }
                    },
                    _ => {},
                }
            },
        }
    }
}

/// Every item of `row`, as Earley set 0, is a prediction of the start
/// nonterminal `start`, or a prediction for a nonterminal under the dot of an
/// item before it: the set holds nothing beyond the start's Predict closure.
pub open spec fn initial_justified(g: Grammar, row: Seq<EarleyItem>, start: u32) -> bool {
    forall|j: int|
        0 <= j < row.len() ==> {
            let it = #[trigger] row[j];
            ||| (it.nonterminal_id == start && (it.production_index as int) < g.production_count(
                start as int,
            ) && it == predicted_item(g, start, it.production_index as int, 0))
            ||| predicted_at(g, row, j, 0)
        }
}

/// The bytes that item `it` lets begin the next token: the next byte of its
/// literal, or the bytes on which its automaton does not reject.
pub open spec fn item_hint(g: Grammar, it: EarleyItem) -> Set<int> {
    match item_node(g, it) {
        Node::Terminal(t) => set![g.spec_terminals()[t as int]@[it.state_id as int] as int],
        Node::RegexString(x) => viable_bytes(g.spec_regexes()[x as int], it.state_id as int),
        Node::Except(e, reps) => viable_bytes(
            g.spec_excepteds()[e as int],
            excepted_dfa_state(g.spec_excepteds()[e as int], reps, it.state_id),
        ),
        Node::Nonterminal(_) => Set::empty(),
    }
}

/// The union of the hints of the first `n` items of `row`.
pub open spec fn row_hints(g: Grammar, row: Seq<EarleyItem>, n: int) -> Set<int> {
    Set::new(|b: int| exists|j: int| 0 <= j < n && #[trigger] item_hint(g, row[j]).contains(b))
}

/// The memo `leo` maps the key `k` to `top`.
pub open spec fn memo_maps(leo: Seq<Map<u32, (u32, u32)>>, k: (u32, u32), top: (u32, u32)) -> bool {
    &&& (k.1 as int) < leo.len()
    &&& leo[k.1 as int].contains_key(k.0)
    &&& leo[k.1 as int][k.0] == top
}

/// Every key of the first `m` steps of the Leo chain of `key` is memoized to
/// `top`.
pub open spec fn chain_memoized(
    pd: Seq<Map<u32, PostDotItems>>,
    leo: Seq<Map<u32, (u32, u32)>>,
    key: (u32, u32),
    top: (u32, u32),
    m: nat,
) -> bool {
    forall|i: nat|
        i < m ==> (#[trigger] leo_iter(pd, key, i) matches Some(k) && memo_maps(leo, k, top))
}

} // verus!
