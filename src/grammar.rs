//! The lowered grammar: productions as sequences of nodes, literal terminals,
//! and the automata of regular expressions and `except!` bodies.
use crate::bitset::{bitset_len, bitset_ones};
use fixedbitset::FixedBitSet;
use vstd::prelude::*;

verus! {

/// How an automaton state classifies the bytes read so far.
#[derive(Clone, Copy, Debug, PartialEq, Eq, Structural)]
pub enum FsaStatus {
    /// A match ends here.
    Accept,
    /// No continuation can match.
    Reject,
    /// No match ends here, but one may follow.
    InProgress,
}

/// A deterministic automaton over bytes, as a dense transition table:
/// the successor of state `s` on byte `b` is `transitions[s * 256 + b]`.
#[derive(Clone, Debug)]
pub struct Fsa {
    pub transitions: Vec<u32>,
    pub statuses: Vec<FsaStatus>,
    pub start: u32,
}

impl Fsa {
    pub open spec fn state_count(&self) -> nat {
        self.statuses@.len()
    }

    /// The table is complete and every entry names a state.
    pub open spec fn wf(&self) -> bool {
        &&& 0 < self.statuses@.len()
        &&& self.transitions@.len() == self.statuses@.len() * 256
        &&& self.start < self.statuses@.len()
        &&& forall|i: int|
            0 <= i < self.transitions@.len() ==> #[trigger] self.transitions@[i]
                < self.statuses@.len()
    }

    /// As the search automaton of an `except!` body: the start state is in
    /// progress, and no in-progress state steps to a rejecting one, so an
    /// item under an `except!` node never meets a rejecting state.
    pub open spec fn search_wf(&self) -> bool {
        &&& self.spec_status(self.start as int) == FsaStatus::InProgress
        &&& forall|s: int, b: u8|
            0 <= s < self.state_count() && self.spec_status(s) == FsaStatus::InProgress
                ==> #[trigger] self.spec_status(self.spec_next(s, b) as int) != FsaStatus::Reject
    }

    pub open spec fn spec_next(&self, s: int, b: u8) -> u32 {
        self.transitions@[s * 256 + b as int]
    }

    pub open spec fn spec_status(&self, s: int) -> FsaStatus {
        self.statuses@[s]
    }

    /// The bytes on which the start state does not step to a rejecting state.
    pub open spec fn first_bytes(&self) -> Set<int> {
        Set::new(
            |b: int|
                0 <= b < 256 && self.spec_status(self.spec_next(self.start as int, b as u8) as int)
                    != FsaStatus::Reject,
        )
    }

    /// The state reached from `s` on `b`.
    pub fn next_state(&self, s: u32, b: u8) -> (r: u32)
        requires
            self.wf(),
            s < self.state_count(),
        ensures
            r == self.spec_next(s as int, b),
            r < self.state_count(),
    {
        self.next_state_at(s as usize, b)
    }

    /// How state `s` classifies what was read.
    pub fn status(&self, s: u32) -> (r: FsaStatus)
        requires
            self.wf(),
            s < self.state_count(),
        ensures
            r == self.spec_status(s as int),
    {
        self.statuses[s as usize]
    }

    /// Whether the table is well formed.
    pub fn is_valid(&self) -> (r: bool)
        ensures
            r == self.wf(),
    {
        let n = self.statuses.len();
        if n == 0 || self.start as usize >= n {
            return false;
        }
        if self.transitions.len() / 256 != n || self.transitions.len() % 256 != 0 {
            return false;
        }
        proof {
            let t = self.transitions@.len() as int;
            assert(t == n * 256) by (nonlinear_arith)
                requires
                    t / 256 == n as int,
                    t % 256 == 0,
            ;
        }
        let mut i: usize = 0;
        while i < self.transitions.len()
            invariant
                0 <= i <= self.transitions@.len(),
                n == self.statuses@.len(),
                forall|k: int| 0 <= k < i ==> #[trigger] self.transitions@[k] < n,
            decreases self.transitions@.len() - i,
        {
            if self.transitions[i] as usize >= n {
                return false;
            }
            i = i + 1;
        }
        true
    }

    /// The state reached from `s` on `b`, with `s` as an index.
    fn next_state_at(&self, s: usize, b: u8) -> (r: u32)
        requires
            self.wf(),
            s < self.state_count(),
        ensures
            r == self.spec_next(s as int, b),
            r < self.state_count(),
    {
        // The table's length, a `usize`, bounds the index computed below.
        let table_len = self.transitions.len();
        proof {
            let n = self.statuses@.len() as int;
            assert((s as int) * 256 + (b as int) < n * 256) by (nonlinear_arith)
                requires
                    s < n,
                    b < 256,
            ;
        }
        assert((s as int) * 256 + (b as int) < table_len);
        self.transitions[s * 256 + b as usize]
    }

    /// Whether the table is fit to search for an `except!` body.
    pub fn is_valid_search(&self) -> (r: bool)
        requires
            self.wf(),
        ensures
            r == self.search_wf(),
    {
        if self.status(self.start) != FsaStatus::InProgress {
            return false;
        }
        let n = self.statuses.len();
        let mut s: usize = 0;
        while s < n
            invariant
                self.wf(),
                n == self.state_count(),
                s <= n,
                self.spec_status(self.start as int) == FsaStatus::InProgress,
                forall|x: int, b: u8|
                    0 <= x < s && self.spec_status(x) == FsaStatus::InProgress
                        ==> #[trigger] self.spec_status(self.spec_next(x, b) as int) != FsaStatus::Reject,
            decreases n - s,
        {
            if self.statuses[s] == FsaStatus::InProgress {
                let mut b: usize = 0;
                while b < 256
                    invariant
                        self.wf(),
                        n == self.state_count(),
                        s < n,
                        self.spec_status(s as int) == FsaStatus::InProgress,
                        b <= 256,
                        forall|c: u8| (c as int) < b ==> #[trigger] self.spec_status(
                            self.spec_next(s as int, c) as int,
                        ) != FsaStatus::Reject,
                    decreases 256 - b,
                {
                    let t = self.next_state_at(s, b as u8);
                    assert(((b as int) as u8) == b as u8);
                    if self.statuses[t as usize] == FsaStatus::Reject {
                        assert(self.spec_status(self.spec_next(s as int, b as u8) as int) == FsaStatus::Reject);
                        return false;
                    }
                    b = b + 1;
                }
            }
            s = s + 1;
        }
        true
    }

    /// The set of bytes that the start state does not reject, as a 256-bit set.
    pub fn compute_first_bytes(&self) -> (r: FixedBitSet)
        requires
            self.wf(),
        ensures
            bitset_len(r) == 256,
            bitset_ones(r) == self.first_bytes(),
    {
        let mut set = FixedBitSet::with_capacity(256);
        let mut b: usize = 0;
        while b < 256
            invariant
                self.wf(),
                b <= 256,
                bitset_len(set) == 256,
                bitset_ones(set) == self.first_bytes().intersect(Set::new(|x: int| 0 <= x < b)),
            decreases 256 - b,
        {
            let s = self.next_state(self.start, b as u8);
            let st = self.status(s);
            let ghost old_ones = bitset_ones(set);
            if st != FsaStatus::Reject {
                set.insert(b);
            }
            assert(bitset_ones(set) =~= self.first_bytes().intersect(
                Set::new(|x: int| 0 <= x < b + 1),
            ));
            b = b + 1;
        }
        assert(bitset_ones(set) =~= self.first_bytes());
        set
    }
}

/// One position of a production.
#[derive(Clone, Copy, Debug, PartialEq, Eq, Structural)]
pub enum Node {
    /// The literal byte string with this index.
    Terminal(u32),
    /// The regular expression with this index, matched anchored.
    RegexString(u32),
    /// Any non-empty bytes in which the `except!` body with this index does not
    /// occur. With a bound `n`, at most `n + 1` bytes: the count is decremented
    /// on each byte after the first, and the node must end when it runs out.
    Except(u32, Option<u32>),
    /// The nonterminal with this index.
    Nonterminal(u32),
}

/// Why a lowered grammar was refused.
#[derive(Clone, Copy, Debug, PartialEq, Eq, Structural)]
pub enum CreateGrammarError {
    /// The start nonterminal has no rules entry.
    InvalidStartNonterminal,
    /// A production has no nodes.
    EmptyProduction,
    /// A node names a terminal, automaton or nonterminal that does not exist.
    InvalidNode,
    /// A terminal is the empty byte string.
    EmptyTerminal,
    /// An automaton's table is incomplete or names a state that does not exist.
    InvalidAutomaton,
    /// More nonterminals, productions or nodes than 32-bit ids can address.
    TooLarge,
}

/// An immutable grammar in lowered normal form. `rules[n][p]` is production `p`
/// of nonterminal `n`, a sequence of nodes.
#[derive(Clone, Debug)]
pub struct Grammar {
    rules: Vec<Vec<Vec<Node>>>,
    terminals: Vec<Vec<u8>>,
    regexes: Vec<Fsa>,
    excepteds: Vec<Fsa>,
    start: u32,
    regex_first_bytes: Vec<FixedBitSet>,
    excepted_first_bytes: Vec<FixedBitSet>,
}

pub open spec fn node_valid(
    rules: Seq<Vec<Vec<Node>>>,
    terminals: Seq<Vec<u8>>,
    regexes: Seq<Fsa>,
    excepteds: Seq<Fsa>,
    node: Node,
) -> bool {
    match node {
        Node::Terminal(t) => t < terminals.len(),
        Node::RegexString(r) => r < regexes.len(),
        Node::Except(e, _) => e < excepteds.len(),
        Node::Nonterminal(n) => n < rules.len(),
    }
}

/// What a lowered grammar must satisfy: every id in range, every production and
/// terminal non-empty, every automaton well formed, and sizes within 32-bit ids.
pub open spec fn lowered_valid(
    rules: Seq<Vec<Vec<Node>>>,
    terminals: Seq<Vec<u8>>,
    regexes: Seq<Fsa>,
    excepteds: Seq<Fsa>,
    start: u32,
) -> bool {
    &&& rules.len() <= u32::MAX
    &&& terminals.len() <= u32::MAX
    &&& regexes.len() <= u32::MAX
    &&& excepteds.len() <= u32::MAX
    &&& start < rules.len()
    &&& forall|n: int| 0 <= n < rules.len() ==> #[trigger] rules[n]@.len() <= u32::MAX
    &&& forall|n: int, p: int|
        0 <= n < rules.len() && 0 <= p < rules[n]@.len() ==> 0 < #[trigger] rules[n]@[p]@.len()
            < u32::MAX
    &&& forall|n: int, p: int, d: int|
        0 <= n < rules.len() && 0 <= p < rules[n]@.len() && 0 <= d < rules[n]@[p]@.len()
            ==> node_valid(rules, terminals, regexes, excepteds, #[trigger] rules[n]@[p]@[d])
    &&& forall|t: int| 0 <= t < terminals.len() ==> 0 < #[trigger] terminals[t]@.len()
    &&& forall|r: int| 0 <= r < regexes.len() ==> #[trigger] regexes[r].wf()
    &&& forall|e: int| 0 <= e < excepteds.len() ==> (#[trigger] excepteds[e].wf()) && excepteds[e].search_wf()
}

impl Grammar {
    pub closed spec fn spec_rules(&self) -> Seq<Vec<Vec<Node>>> {
        self.rules@
    }

    pub closed spec fn spec_terminals(&self) -> Seq<Vec<u8>> {
        self.terminals@
    }

    pub closed spec fn spec_regexes(&self) -> Seq<Fsa> {
        self.regexes@
    }

    pub closed spec fn spec_excepteds(&self) -> Seq<Fsa> {
        self.excepteds@
    }

    pub closed spec fn spec_start(&self) -> u32 {
        self.start
    }

    pub closed spec fn spec_regex_first_bytes(&self) -> Seq<FixedBitSet> {
        self.regex_first_bytes@
    }

    pub closed spec fn spec_excepted_first_bytes(&self) -> Seq<FixedBitSet> {
        self.excepted_first_bytes@
    }

    pub open spec fn nonterminal_count(&self) -> nat {
        self.spec_rules().len()
    }

    pub open spec fn production_count(&self, n: int) -> nat {
        self.spec_rules()[n]@.len()
    }

    pub open spec fn production_len(&self, n: int, p: int) -> nat {
        self.spec_rules()[n]@[p]@.len()
    }

    pub open spec fn spec_node(&self, n: int, p: int, d: int) -> Node {
        self.spec_rules()[n]@[p]@[d]
    }

    pub open spec fn wf(&self) -> bool {
        &&& lowered_valid(self.spec_rules(), self.spec_terminals(), self.spec_regexes(), self.spec_excepteds(), self.spec_start())
        &&& self.spec_regex_first_bytes().len() == self.spec_regexes().len()
        &&& self.spec_excepted_first_bytes().len() == self.spec_excepteds().len()
        &&& forall|r: int|
            0 <= r < self.spec_regexes().len() ==> {
                &&& bitset_len(#[trigger] self.spec_regex_first_bytes()[r]) == 256
                &&& bitset_ones(self.spec_regex_first_bytes()[r]) == self.spec_regexes()[r].first_bytes()
            }
        &&& forall|e: int|
            0 <= e < self.spec_excepteds().len() ==> {
                &&& bitset_len(#[trigger] self.spec_excepted_first_bytes()[e]) == 256
                &&& bitset_ones(self.spec_excepted_first_bytes()[e]) == self.spec_excepteds()[e].first_bytes()
            }
    }

    /// The start nonterminal.
    pub fn get_start_nonterminal_id(&self) -> (r: u32)
        ensures
            r == self.spec_start(),
    {
        self.start
    }

    /// The number of nonterminals.
    pub fn get_nonterminals_size(&self) -> (r: usize)
        ensures
            r == self.nonterminal_count(),
    {
        self.rules.len()
    }

    /// The number of terminals.
    pub fn get_terminals_size(&self) -> (r: usize)
        ensures
            r == self.spec_terminals().len(),
    {
        self.terminals.len()
    }

    /// The number of regular expressions.
    pub fn get_regexes_size(&self) -> (r: usize)
        ensures
            r == self.spec_regexes().len(),
    {
        self.regexes.len()
    }

    /// The number of `except!` bodies.
    pub fn get_excepteds_size(&self) -> (r: usize)
        ensures
            r == self.spec_excepteds().len(),
    {
        self.excepteds.len()
    }

    /// The number of productions of nonterminal `n`.
    pub fn get_production_len(&self, n: u32) -> (r: usize)
        requires
            (n as int) < self.nonterminal_count(),
        ensures
            r == self.production_count(n as int),
    {
        self.rules[n as usize].len()
    }

    /// The number of nodes of production `p` of nonterminal `n`.
    pub fn get_node_count(&self, n: u32, p: u32) -> (r: usize)
        requires
            (n as int) < self.nonterminal_count(),
            (p as int) < self.production_count(n as int),
        ensures
            r == self.production_len(n as int, p as int),
    {
        self.rules[n as usize][p as usize].len()
    }

    /// Node `d` of production `p` of nonterminal `n`.
    pub fn get_node(&self, n: u32, p: u32, d: u32) -> (r: Node)
        requires
            (n as int) < self.nonterminal_count(),
            (p as int) < self.production_count(n as int),
            (d as int) < self.production_len(n as int, p as int),
        ensures
            r == self.spec_node(n as int, p as int, d as int),
    {
        self.rules[n as usize][p as usize][d as usize]
    }

    /// The bytes of terminal `t`.
    pub fn get_terminal(&self, t: u32) -> (r: &Vec<u8>)
        requires
            (t as int) < self.spec_terminals().len(),
        ensures
            *r == self.spec_terminals()[t as int],
    {
        &self.terminals[t as usize]
    }

    /// The automaton of regular expression `x`.
    pub fn get_regex(&self, x: u32) -> (r: &Fsa)
        requires
            (x as int) < self.spec_regexes().len(),
        ensures
            *r == self.spec_regexes()[x as int],
    {
        &self.regexes[x as usize]
    }

    /// The automaton of `except!` body `e`.
    pub fn get_excepted(&self, e: u32) -> (r: &Fsa)
        requires
            (e as int) < self.spec_excepteds().len(),
        ensures
            *r == self.spec_excepteds()[e as int],
    {
        &self.excepteds[e as usize]
    }

    /// The bytes on which regular expression `x` can begin.
    pub fn get_first_bytes_from_regex(&self, x: u32) -> (r: &FixedBitSet)
        requires
            self.wf(),
            (x as int) < self.spec_regexes().len(),
        ensures
            bitset_len(*r) == 256,
            bitset_ones(*r) == self.spec_regexes()[x as int].first_bytes(),
    {
        &self.regex_first_bytes[x as usize]
    }

    /// The bytes on which an `except!` body `e` does not reject from its start.
    pub fn get_first_bytes_from_excepted(&self, e: u32) -> (r: &FixedBitSet)
        requires
            self.wf(),
            (e as int) < self.spec_excepteds().len(),
        ensures
            bitset_len(*r) == 256,
            bitset_ones(*r) == self.spec_excepteds()[e as int].first_bytes(),
    {
        &self.excepted_first_bytes[e as usize]
    }

    /// Whether the grammar has no production at all.
    pub fn is_empty(&self) -> (r: bool)
        ensures
            r == forall|n: int| 0 <= n < self.nonterminal_count() ==> self.production_count(n) == 0,
    {
        let mut n: usize = 0;
        while n < self.rules.len()
            invariant
                n <= self.rules@.len(),
                forall|m: int| 0 <= m < n ==> self.rules@[m]@.len() == 0,
            decreases self.rules@.len() - n,
        {
            if self.rules[n].len() > 0 {
                assert(self.production_count(n as int) > 0);
                return false;
            }
            n = n + 1;
        }
        true
    }

    /// Builds a grammar from its tables, checking that they fit together.
    pub fn new(
        rules: Vec<Vec<Vec<Node>>>,
        terminals: Vec<Vec<u8>>,
        regexes: Vec<Fsa>,
        excepteds: Vec<Fsa>,
        start: u32,
    ) -> (r: Result<Grammar, CreateGrammarError>)
        ensures
            r is Ok <==> lowered_valid(rules@, terminals@, regexes@, excepteds@, start),
            r matches Ok(g) ==> {
                &&& g.wf()
                &&& g.spec_rules() == rules@
                &&& g.spec_terminals() == terminals@
                &&& g.spec_regexes() == regexes@
                &&& g.spec_excepteds() == excepteds@
                &&& g.spec_start() == start
            },
            r == Err::<Grammar, _>(CreateGrammarError::InvalidStartNonterminal) ==> start
                >= rules@.len(),
            r == Err::<Grammar, _>(CreateGrammarError::TooLarge) ==> rules@.len() > u32::MAX
                || terminals@.len() > u32::MAX || regexes@.len() > u32::MAX || excepteds@.len()
                > u32::MAX || (exists|n: int| 0 <= n < rules@.len() && #[trigger] rules@[n]@.len() > u32::MAX)
                || (exists|n: int, p: int|
                0 <= n < rules@.len() && 0 <= p < rules@[n]@.len() && #[trigger] rules@[n]@[p]@.len()
                    >= u32::MAX),
            r == Err::<Grammar, _>(CreateGrammarError::EmptyTerminal) ==> exists|t: int|
                0 <= t < terminals@.len() && #[trigger] terminals@[t]@.len() == 0,
            r == Err::<Grammar, _>(CreateGrammarError::InvalidAutomaton) ==> (exists|x: int|
                0 <= x < regexes@.len() && !#[trigger] regexes@[x].wf()) || (exists|e: int|
                0 <= e < excepteds@.len() && !(#[trigger] excepteds@[e].wf() && excepteds@[e].search_wf())),
            r == Err::<Grammar, _>(CreateGrammarError::EmptyProduction) ==> exists|n: int, p: int|
                0 <= n < rules@.len() && 0 <= p < rules@[n]@.len() && #[trigger] rules@[n]@[p]@.len()
                    == 0,
            r == Err::<Grammar, _>(CreateGrammarError::InvalidNode) ==> exists|n: int, p: int, d: int|
                0 <= n < rules@.len() && 0 <= p < rules@[n]@.len() && 0 <= d < rules@[n]@[p]@.len()
                    && !node_valid(rules@, terminals@, regexes@, excepteds@, #[trigger] rules@[n]@[p]@[d]),
    {
        if rules.len() > u32::MAX as usize || terminals.len() > u32::MAX as usize || regexes.len()
            > u32::MAX as usize || excepteds.len() > u32::MAX as usize {
            return Err(CreateGrammarError::TooLarge);
        }
        if start as usize >= rules.len() {
            return Err(CreateGrammarError::InvalidStartNonterminal);
        }
        let mut t: usize = 0;
        while t < terminals.len()
            invariant
                t <= terminals@.len(),
                forall|k: int| 0 <= k < t ==> 0 < #[trigger] terminals@[k]@.len(),
            decreases terminals@.len() - t,
        {
            if terminals[t].len() == 0 {
                assert(terminals@[t as int]@.len() == 0);
                return Err(CreateGrammarError::EmptyTerminal);
            }
            t = t + 1;
        }
        let mut regex_first_bytes: Vec<FixedBitSet> = Vec::new();
        let mut i: usize = 0;
        while i < regexes.len()
            invariant
                i <= regexes@.len(),
                regex_first_bytes@.len() == i,
                forall|k: int| 0 <= k < i ==> #[trigger] regexes@[k].wf(),
                forall|k: int|
                    0 <= k < i ==> {
                        &&& bitset_len(#[trigger] regex_first_bytes@[k]) == 256
                        &&& bitset_ones(regex_first_bytes@[k]) == regexes@[k].first_bytes()
                    },
            decreases regexes@.len() - i,
        {
            if !regexes[i].is_valid() {
                assert(!regexes@[i as int].wf());
                return Err(CreateGrammarError::InvalidAutomaton);
            }
            regex_first_bytes.push(regexes[i].compute_first_bytes());
            i = i + 1;
        }
        let mut excepted_first_bytes: Vec<FixedBitSet> = Vec::new();
        let mut i: usize = 0;
        while i < excepteds.len()
            invariant
                i <= excepteds@.len(),
                excepted_first_bytes@.len() == i,
                forall|k: int| 0 <= k < i ==> #[trigger] excepteds@[k].wf(),
                forall|k: int| 0 <= k < i ==> #[trigger] excepteds@[k].search_wf(),
                forall|k: int|
                    0 <= k < i ==> {
                        &&& bitset_len(#[trigger] excepted_first_bytes@[k]) == 256
                        &&& bitset_ones(excepted_first_bytes@[k]) == excepteds@[k].first_bytes()
                    },
            decreases excepteds@.len() - i,
        {
            if !excepteds[i].is_valid() {
                return Err(CreateGrammarError::InvalidAutomaton);
            }
            if !excepteds[i].is_valid_search() {
                return Err(CreateGrammarError::InvalidAutomaton);
            }
            assert(excepteds@[i as int].wf() && excepteds@[i as int].search_wf());
            excepted_first_bytes.push(excepteds[i].compute_first_bytes());
            i = i + 1;
        }
        let mut n: usize = 0;
        while n < rules.len()
            invariant
                n <= rules@.len(),
                rules@.len() <= u32::MAX,
                forall|m: int| 0 <= m < n ==> #[trigger] rules@[m]@.len() <= u32::MAX,
                forall|m: int, p: int|
                    0 <= m < n && 0 <= p < rules@[m]@.len() ==> 0 < #[trigger] rules@[m]@[p]@.len()
                        < u32::MAX,
                forall|m: int, p: int, d: int|
                    0 <= m < n && 0 <= p < rules@[m]@.len() && 0 <= d < rules@[m]@[p]@.len()
                        ==> node_valid(
                        rules@,
                        terminals@,
                        regexes@,
                        excepteds@,
                        #[trigger] rules@[m]@[p]@[d],
                    ),
            decreases rules@.len() - n,
        {
            let productions = &rules[n];
            if productions.len() > u32::MAX as usize {
                assert(rules@[n as int]@.len() > u32::MAX);
                return Err(CreateGrammarError::TooLarge);
            }
            let mut p: usize = 0;
            while p < productions.len()
                invariant
                    n < rules@.len(),
                    productions == &rules@[n as int],
                    p <= productions@.len(),
                    forall|q: int| 0 <= q < p ==> 0 < #[trigger] productions@[q]@.len() < u32::MAX,
                    forall|q: int, d: int|
                        0 <= q < p && 0 <= d < productions@[q]@.len() ==> node_valid(
                            rules@,
                            terminals@,
                            regexes@,
                            excepteds@,
                            #[trigger] productions@[q]@[d],
                        ),
                decreases productions@.len() - p,
            {
                let production = &productions[p];
                if production.len() == 0 {
                    assert(rules@[n as int]@[p as int]@.len() == 0);
                    return Err(CreateGrammarError::EmptyProduction);
                }
                if production.len() >= u32::MAX as usize {
                    assert(rules@[n as int]@[p as int]@.len() >= u32::MAX);
                    return Err(CreateGrammarError::TooLarge);
                }
                let mut d: usize = 0;
                while d < production.len()
                    invariant
                        n < rules@.len(),
                        productions == &rules@[n as int],
                        p < productions@.len(),
                        production == &productions@[p as int],
                        d <= production@.len(),
                        forall|e: int|
                            0 <= e < d ==> node_valid(
                                rules@,
                                terminals@,
                                regexes@,
                                excepteds@,
                                #[trigger] production@[e],
                            ),
                    decreases production@.len() - d,
                {
                    let ok = match production[d] {
                        Node::Terminal(t) => (t as usize) < terminals.len(),
                        Node::RegexString(x) => (x as usize) < regexes.len(),
                        Node::Except(e, _) => (e as usize) < excepteds.len(),
                        Node::Nonterminal(m) => (m as usize) < rules.len(),
                    };
                    if !ok {
                        assert(rules@[n as int]@[p as int]@[d as int] == production@[d as int]);
                        return Err(CreateGrammarError::InvalidNode);
                    }
                    d = d + 1;
                }
                p = p + 1;
            }
            n = n + 1;
        }
        Ok(
            Grammar {
                rules,
                terminals,
                regexes,
                excepteds,
                start,
                regex_first_bytes,
                excepted_first_bytes,
            },
        )
    }
}

} // verus!
