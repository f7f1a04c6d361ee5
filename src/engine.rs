use std::collections::HashMap;
use std::marker::PhantomData;
use vstd::prelude::*;

verus! {

/// Whose worst-case interest governs the minimax term at a node.
#[derive(Debug, Clone, Copy, PartialEq, Eq, Structural)]
pub enum Mode {
    Maximize,
    Minimize,
}

/// An oracle's verdict on a state.
#[derive(Debug, Clone, Copy, PartialEq, Eq, Structural)]
pub enum Evaluation {
    /// Recurse into the successors and blend their scores.
    Mode(Mode),
    /// Recurse as `Mode`, then add a fixed offset to the blended score.
    ModeWithValue(Mode, i64),
    /// Terminal score: no recursion.
    Value(i64),
}

/// Why a score could not be computed.
#[derive(Debug, Clone, Copy, PartialEq, Eq, Structural)]
pub enum SearchError {
    /// The ratio is not a fraction in `[0, 1]`.
    InvalidRatio,
    /// A sum or an offset left the range of `i64`.
    Overflow,
    /// A state evaluated as `Mode` or `ModeWithValue` has no decisions.
    DeadEnd,
}

/// Blend weight between the minimax term (`num / den`) and the summed term.
#[derive(Debug, Clone, Copy, PartialEq, Eq, Structural)]
pub struct Ratio {
    num: u32,
    den: u32,
}

impl Ratio {
    /// `0 < den` and `num <= den`.
    pub closed spec fn wf(self) -> bool {
        0 < self.den && self.num <= self.den
    }

    pub closed spec fn spec_num(self) -> nat {
        self.num as nat
    }

    pub closed spec fn spec_den(self) -> nat {
        self.den as nat
    }

    /// The fraction `num / den`, refused unless `den > 0` and `num <= den`.
    pub fn new(num: u32, den: u32) -> (r: Result<Ratio, SearchError>)
        ensures
            (0 < den && num <= den) ==> (r matches Ok(q) && q.wf() && q.spec_num() == num
                && q.spec_den() == den),
            !(0 < den && num <= den) ==> r == Err::<Ratio, SearchError>(SearchError::InvalidRatio),
    {
        if den == 0 || num > den {
            Err(SearchError::InvalidRatio)
        } else {
            Ok(Ratio { num, den })
        }
    }

    pub fn num(&self) -> (r: u32)
        ensures
            r == self.spec_num(),
    {
        self.num
    }

    pub fn den(&self) -> (r: u32)
        ensures
            r == self.spec_den(),
    {
        self.den
    }
}

/// `n / d` rounded toward zero.
pub open spec fn div_toward_zero(n: int, d: int) -> int {
    if n >= 0 {
        n / d
    } else {
        -((-n) / d)
    }
}

/// `num * minmax + (den - num) * sum`, divided by `den` and rounded toward zero.
pub open spec fn blend(num: nat, den: nat, minmax: int, sum: int) -> int {
    div_toward_zero(num * minmax + (den - num) * sum, den as int)
}

proof fn lemma_blend_bounds(num: int, den: int, minmax: int, sum: int)
    requires
        0 < den <= u32::MAX,
        0 <= num <= den,
        i64::MIN <= minmax <= i64::MAX,
        i64::MIN <= sum <= i64::MAX,
    ensures
        -0x1_0000_0000_0000_0000_0000_0000 <= num * minmax <= 0x1_0000_0000_0000_0000_0000_0000,
        -0x1_0000_0000_0000_0000_0000_0000 <= (den - num) * sum <= 0x1_0000_0000_0000_0000_0000_0000,
        i64::MIN <= div_toward_zero(num * minmax + (den - num) * sum, den) <= i64::MAX,
{
    let lo = if minmax <= sum { minmax } else { sum };
    let hi = if minmax <= sum { sum } else { minmax };
    let n = num * minmax + (den - num) * sum;
    assert(-0x1_0000_0000_0000_0000_0000_0000 <= num * minmax <= 0x1_0000_0000_0000_0000_0000_0000)
        by (nonlinear_arith)
        requires
            0 <= num <= 0x1_0000_0000,
            -0x8000_0000_0000_0000 <= minmax <= 0x8000_0000_0000_0000,
    ;
    assert(-0x1_0000_0000_0000_0000_0000_0000 <= (den - num) * sum <= 0x1_0000_0000_0000_0000_0000_0000)
        by (nonlinear_arith)
        requires
            0 <= den - num <= 0x1_0000_0000,
            -0x8000_0000_0000_0000 <= sum <= 0x8000_0000_0000_0000,
    ;
    assert(den * lo <= n <= den * hi) by (nonlinear_arith)
        requires
            0 <= num <= den,
            n == num * minmax + (den - num) * sum,
            lo <= minmax <= hi,
            lo <= sum <= hi,
    ;
    if n >= 0 {
        assert(n / den <= hi) by (nonlinear_arith)
            requires
                0 < den,
                0 <= n <= den * hi,
        ;
        assert(0 <= n / den) by (nonlinear_arith)
            requires
                0 < den,
                0 <= n,
        ;
    } else {
        assert(lo <= -((-n) / den)) by (nonlinear_arith)
            requires
                0 < den,
                den * lo <= n < 0,
        ;
        assert(-((-n) / den) <= 0) by (nonlinear_arith)
            requires
                0 < den,
                n < 0,
        ;
    }
}

/// `blend` on machine integers; the result always fits, being between the two terms.
fn blend_exec(q: Ratio, minmax: i64, sum: i64) -> (r: i64)
    requires
        q.wf(),
    ensures
        r == blend(q.spec_num(), q.spec_den(), minmax as int, sum as int),
{
    proof {
        lemma_blend_bounds(q.num as int, q.den as int, minmax as int, sum as int);
    }
    let n: i128 = (q.num as i128) * (minmax as i128) + ((q.den - q.num) as i128) * (sum as i128);
    let d: i128 = q.den as i128;
    let f: i128 = if n >= 0 {
        n / d
    } else {
        -((-n) / d)
    };
    f as i64
}

/// A turn-based decision process: its states, legal decisions and transitions.
pub trait State: Sized {
    type Decision;

    /// Key under which the state's score is memoized; distinct states have distinct keys.
    spec fn spec_key(&self) -> u64;

    /// A measure that every legal decision strictly lowers, so that search terminates.
    spec fn rank(&self) -> nat;

    /// The legal decisions, in the order in which they are tried.
    spec fn spec_decisions(&self) -> Seq<Self::Decision>;

    /// The successor reached by taking `d`.
    spec fn spec_successor(&self, d: Self::Decision) -> Self;

    proof fn lemma_key_injective(a: Self, b: Self)
        requires
            a.spec_key() == b.spec_key(),
        ensures
            a == b,
    ;

    proof fn lemma_rank_decreases(s: Self, d: Self::Decision)
        requires
            s.spec_decisions().contains(d),
        ensures
            s.spec_successor(d).rank() < s.rank(),
    ;

    /// A copy of a decision.
    fn copy_decision(d: &Self::Decision) -> (r: Self::Decision)
        ensures
            r == *d,
    ;

    fn key(&self) -> (r: u64)
        ensures
            r == self.spec_key(),
    ;

    fn decisions(&self) -> (r: Vec<Self::Decision>)
        ensures
            r@ == self.spec_decisions(),
    ;

    fn successor(&self, d: &Self::Decision) -> (r: Self)
        requires
            self.spec_decisions().contains(*d),
        ensures
            r == self.spec_successor(*d),
    ;
}

/// Scores a state, or asks for recursive evaluation of its successors.
pub trait Eval<S> {
    spec fn spec_evaluate(&self, s: S) -> Evaluation;

    fn evaluate(&self, s: &S) -> (r: Evaluation)
        ensures
            r == self.spec_evaluate(*s),
    ;
}

/// Whether `v` is in the range of `i64`.
pub open spec fn fits(v: int) -> bool {
    i64::MIN <= v <= i64::MAX
}

/// The successor reached by the `i`-th legal decision of `s`.
pub open spec fn child<S: State>(s: S, i: int) -> S {
    s.spec_successor(s.spec_decisions()[i])
}

/// The better of `a` and `b` for the side given by `m`.
pub open spec fn pick(m: Mode, a: int, b: int) -> int {
    match m {
        Mode::Maximize => if b > a {
            b
        } else {
            a
        },
        Mode::Minimize => if b < a {
            b
        } else {
            a
        },
    }
}

/// Score of a state: the oracle's value, or the blend of its successors' scores.
pub open spec fn score<S: State, E: Eval<S>>(e: E, q: Ratio, s: S) -> Result<int, SearchError>
    decreases s.rank(), 1nat, 0nat,
{
    let n = s.spec_decisions().len();
    match e.spec_evaluate(s) {
        Evaluation::Value(v) => Ok(v as int),
        Evaluation::Mode(m) => blend_children(q, n, fold_children(e, q, s, m, n)),
        Evaluation::ModeWithValue(m, v) => match blend_children(q, n, fold_children(e, q, s, m, n)) {
            Ok(b) => if fits(b + v) {
                Ok(b + v)
            } else {
                Err(SearchError::Overflow)
            },
            Err(x) => Err(x),
        },
    }
}

/// The blended score of a node with `n` successors, from the fold over them.
pub open spec fn blend_children(q: Ratio, n: nat, f: Result<(int, int), SearchError>) -> Result<
    int,
    SearchError,
> {
    if n == 0 {
        Err(SearchError::DeadEnd)
    } else {
        match f {
            Ok((minmax, sum)) => Ok(blend(q.spec_num(), q.spec_den(), minmax, sum)),
            Err(x) => Err(x),
        }
    }
}

/// The minimax term and the sum over the first `i` successors of `s`.
pub open spec fn fold_children<S: State, E: Eval<S>>(e: E, q: Ratio, s: S, m: Mode, i: nat) -> Result<
    (int, int),
    SearchError,
>
    decreases s.rank(), 0nat, i,
{
    if i == 0 || i > s.spec_decisions().len() {
        Ok((0, 0))
    } else {
        match fold_children(e, q, s, m, (i - 1) as nat) {
            Err(x) => Err(x),
            Ok((minmax, sum)) => {
                let c = child(s, i - 1);
                if c.rank() < s.rank() {
                    match score(e, q, c) {
                        Err(x) => Err(x),
                        Ok(v) => if fits(sum + v) {
                            Ok(
                                (
                                    if i == 1 {
                                        v
                                    } else {
                                        pick(m, minmax, v)
                                    },
                                    sum + v,
                                ),
                            )
                        } else {
                            Err(SearchError::Overflow)
                        },
                    }
                } else {
                    Err(SearchError::DeadEnd)
                }
            },
        }
    }
}

proof fn lemma_fold_error_persists<S: State, E: Eval<S>>(
    e: E,
    q: Ratio,
    s: S,
    m: Mode,
    i: nat,
    j: nat,
    x: SearchError,
)
    requires
        i <= j <= s.spec_decisions().len(),
        fold_children(e, q, s, m, i) == Err::<(int, int), SearchError>(x),
    ensures
        fold_children(e, q, s, m, j) == Err::<(int, int), SearchError>(x),
    decreases j - i,
{
    if i < j {
        lemma_fold_error_persists(e, q, s, m, i, (j - 1) as nat, x);
    }
}

/// The best decision among the first `i` of `s`: the first with the highest score.
pub open spec fn best_of<S: State, E: Eval<S>>(e: E, q: Ratio, s: S, i: nat) -> Result<
    Option<(S::Decision, int)>,
    SearchError,
>
    decreases i,
{
    if i == 0 || i > s.spec_decisions().len() {
        Ok(None)
    } else {
        match best_of(e, q, s, (i - 1) as nat) {
            Err(x) => Err(x),
            Ok(prev) => match score(e, q, child(s, i - 1)) {
                Err(x) => Err(x),
                Ok(v) => {
                    let d = s.spec_decisions()[i - 1];
                    match prev {
                        None => Ok(Some((d, v))),
                        Some((bd, bv)) => if v > bv {
                            Ok(Some((d, v)))
                        } else {
                            Ok(Some((bd, bv)))
                        },
                    }
                },
            },
        }
    }
}

proof fn lemma_best_error_persists<S: State, E: Eval<S>>(
    e: E,
    q: Ratio,
    s: S,
    i: nat,
    j: nat,
    x: SearchError,
)
    requires
        i <= j <= s.spec_decisions().len(),
        best_of(e, q, s, i) == Err::<Option<(S::Decision, int)>, SearchError>(x),
    ensures
        best_of(e, q, s, j) == Err::<Option<(S::Decision, int)>, SearchError>(x),
    decreases j - i,
{
    if i < j {
        lemma_best_error_persists(e, q, s, i, (j - 1) as nat, x);
    }
}

/// What `select` returns for `s`.
pub open spec fn selection<S: State, E: Eval<S>>(e: E, q: Ratio, s: S) -> Result<
    Option<(S::Decision, int)>,
    SearchError,
> {
    best_of(e, q, s, s.spec_decisions().len())
}

/// Whether an executable result is the mathematical one.
pub open spec fn agrees(r: Result<i64, SearchError>, v: Result<int, SearchError>) -> bool {
    match r {
        Ok(x) => v == Ok::<int, SearchError>(x as int),
        Err(x) => v == Err::<int, SearchError>(x),
    }
}

/// Whether an executable choice is the mathematical one.
pub open spec fn agrees_choice<D>(
    r: Result<Option<(D, i64)>, SearchError>,
    v: Result<Option<(D, int)>, SearchError>,
) -> bool {
    match r {
        Ok(None) => v == Ok::<Option<(D, int)>, SearchError>(None),
        Ok(Some((d, x))) => v == Ok::<Option<(D, int)>, SearchError>(Some((d, x as int))),
        Err(x) => v == Err::<Option<(D, int)>, SearchError>(x),
    }
}

/// A search session: the oracle, the ratio, and the memo of scores computed so far.
pub struct Engine<S, E> {
    oracle: E,
    ratio: Ratio,
    memo: HashMap<u64, i64>,
    evaluated: Ghost<Seq<u64>>,
    marker: PhantomData<S>,
}

/// The rank of the state whose key is `k`.
pub open spec fn rank_of_key<S: State>(k: u64) -> nat {
    (choose|t: S| t.spec_key() == k).rank()
}

proof fn lemma_rank_of_key<S: State>(s: S)
    ensures
        rank_of_key::<S>(s.spec_key()) == s.rank(),
{
    let t = choose|t: S| t.spec_key() == s.spec_key();
    S::lemma_key_injective(t, s);
}

impl<S: State, E: Eval<S>> Engine<S, E> {
    pub closed spec fn spec_oracle(&self) -> E {
        self.oracle
    }

    pub closed spec fn spec_ratio(&self) -> Ratio {
        self.ratio
    }

    /// Keys of the states handed to the oracle so far, in order.
    pub closed spec fn evaluated(&self) -> Seq<u64> {
        self.evaluated@
    }

    /// From `self` to `next` the record of oracle calls only grew, and the keys it gained
    /// were not memoized in `self`, are pairwise distinct, and are keys of states that
    /// rank below `bound`; the memo only grew, and only by keys that the record gained.
    pub open spec fn grows_by_fresh(&self, next: &Self, bound: int) -> bool {
        let n0 = self.evaluated().len();
        let log = next.evaluated();
        &&& n0 <= log.len()
        &&& log.take(n0 as int) =~= self.evaluated()
        &&& forall|j: int| n0 <= j < log.len() ==> !self.memo_keys().contains(#[trigger] log[j])
        &&& forall|j1: int, j2: int|
            n0 <= j1 < j2 < log.len() ==> #[trigger] log[j1] != #[trigger] log[j2]
        &&& forall|j: int| n0 <= j < log.len() ==> rank_of_key::<S>(#[trigger] log[j]) < bound
        &&& forall|k: u64| self.memo_keys().contains(k) ==> next.memo_keys().contains(k)
        &&& forall|k: u64|
            #[trigger] next.memo_keys().contains(k) ==> self.memo_keys().contains(k) || exists|
                j: int,
            | n0 <= j < log.len() && log[j] == k
    }

    /// Every key that the record of oracle calls gained from `self` to `next` is memoized in `next`.
    pub open spec fn all_memoized(&self, next: &Self) -> bool {
        forall|j: int|
            self.evaluated().len() <= j < next.evaluated().len() ==> next.memo_keys().contains(
                #[trigger] next.evaluated()[j],
            )
    }

    /// Keys of the states whose scores are memoized.
    pub closed spec fn memo_keys(&self) -> Set<u64> {
        self.memo@.dom()
    }

    /// The ratio is a fraction in `[0, 1]` and every memoized score is the score of its state.
    pub closed spec fn wf(&self) -> bool {
        &&& self.ratio.wf()
        &&& forall|s: S| #[trigger]
            self.memo@.contains_key(s.spec_key()) ==> score(self.oracle, self.ratio, s) == Ok::<
                int,
                SearchError,
            >(self.memo@[s.spec_key()] as int)
    }

    /// The oracle of this session.
    pub fn oracle(&self) -> (r: &E)
        ensures
            *r == self.spec_oracle(),
    {
        &self.oracle
    }

    /// The ratio of this session.
    pub fn ratio(&self) -> (r: Ratio)
        ensures
            r == self.spec_ratio(),
    {
        self.ratio
    }

    /// How many scores are memoized.
    pub fn memo_len(&self) -> (r: usize)
        ensures
            r == self.memo_keys().len(),
    {
        broadcast use vstd::std_specs::hash::group_hash_axioms;

        self.memo.len()
    }

    /// A fresh session with an empty memo.
    pub fn new(oracle: E, ratio: Ratio) -> (r: Self)
        requires
            ratio.wf(),
        ensures
            r.wf(),
            r.spec_oracle() == oracle,
            r.spec_ratio() == ratio,
            r.memo_keys() == Set::<u64>::empty(),
            r.evaluated() == Seq::<u64>::empty(),
            r.evaluated_once(),
    {
        Engine { oracle, ratio, memo: HashMap::new(), evaluated: Ghost(Seq::empty()), marker: PhantomData }
    }

    /// No key occurs twice in the record of oracle calls, and every recorded key is memoized.
    pub open spec fn evaluated_once(&self) -> bool {
        &&& self.evaluated().no_duplicates()
        &&& forall|j: int|
            0 <= j < self.evaluated().len() ==> self.memo_keys().contains(
                #[trigger] self.evaluated()[j],
            )
    }

    /// Each state is handed to the oracle at most once per session, as long as its calls succeed:
    /// a successful `evaluate` or `select` (which grows the record by fresh keys and memoizes
    /// them all) keeps `evaluated_once`, which a new session has.
    pub proof fn lemma_evaluated_once(a: &Self, b: &Self, bound: int)
        requires
            a.evaluated_once(),
            a.grows_by_fresh(b, bound),
            a.all_memoized(b),
        ensures
            b.evaluated_once(),
    {
        let na = a.evaluated().len();
        let lb = b.evaluated();
        assert forall|j: int| 0 <= j < na implies lb[j] == a.evaluated()[j] by {
            assert(lb.take(na as int)[j] == lb[j]);
        }
        assert forall|j1: int, j2: int| 0 <= j1 < lb.len() && 0 <= j2 < lb.len() && j1 != j2 implies lb[j1]
            != lb[j2] by {
            let (lo, hi) = if j1 < j2 {
                (j1, j2)
            } else {
                (j2, j1)
            };
            if hi < na {
                assert(a.evaluated()[lo] != a.evaluated()[hi]);
            } else if lo >= na {
                assert(lb[lo] != lb[hi]);
            } else {
                assert(a.memo_keys().contains(a.evaluated()[lo]));
                assert(!a.memo_keys().contains(lb[hi]));
            }
        }
        assert forall|j: int| 0 <= j < lb.len() implies b.memo_keys().contains(#[trigger] lb[j]) by {
            if j < na {
                assert(a.memo_keys().contains(a.evaluated()[j]));
            }
        }
    }

    proof fn lemma_chain(a: &Self, b: &Self, c: &Self, bound: int, inner: int)
        requires
            a.grows_by_fresh(b, bound),
            a.all_memoized(b),
            b.grows_by_fresh(c, inner),
            inner <= bound,
        ensures
            a.grows_by_fresh(c, bound),
            b.all_memoized(c) ==> a.all_memoized(c),
    {
        let na = a.evaluated().len();
        let nb = b.evaluated().len();
        let lc = c.evaluated();
        assert forall|j: int| 0 <= j < nb implies lc[j] == b.evaluated()[j] by {
            assert(lc.take(nb as int)[j] == lc[j]);
        }
        assert(lc.take(na as int) =~= a.evaluated()) by {
            assert forall|j: int| 0 <= j < na implies lc[j] == a.evaluated()[j] by {
                assert(b.evaluated().take(na as int)[j] == b.evaluated()[j]);
            }
        }
        assert forall|j1: int, j2: int| na <= j1 < j2 < lc.len() implies #[trigger] lc[j1]
            != #[trigger] lc[j2] by {
            if j2 < nb {
                assert(b.evaluated()[j1] != b.evaluated()[j2]);
            } else if j1 >= nb {
            } else {
                assert(b.memo_keys().contains(b.evaluated()[j1]));
                assert(!b.memo_keys().contains(lc[j2]));
            }
        }
        assert forall|j: int| na <= j < lc.len() implies !a.memo_keys().contains(#[trigger] lc[j])
            && rank_of_key::<S>(lc[j]) < bound by {
            if j < nb {
                assert(lc[j] == b.evaluated()[j]);
            } else {
                assert(!b.memo_keys().contains(lc[j]));
            }
        }
        assert forall|k: u64| #[trigger] c.memo_keys().contains(k) implies a.memo_keys().contains(
            k,
        ) || exists|j: int| na <= j < lc.len() && lc[j] == k by {
            if !b.memo_keys().contains(k) {
                let j = choose|j: int| nb <= j < lc.len() && lc[j] == k;
                assert(lc[j] == k);
            } else if !a.memo_keys().contains(k) {
                let j = choose|j: int| na <= j < nb && b.evaluated()[j] == k;
                assert(lc[j] == k);
            }
        }
    }

    /// The score of `s`, computed once and memoized.
    pub fn evaluate(&mut self, s: &S) -> (r: Result<i64, SearchError>)
        requires
            old(self).wf(),
        ensures
            final(self).wf(),
            final(self).spec_oracle() == old(self).spec_oracle(),
            final(self).spec_ratio() == old(self).spec_ratio(),
            agrees(r, score(old(self).spec_oracle(), old(self).spec_ratio(), *s)),
            old(self).grows_by_fresh(final(self), s.rank() + 1int),
            r is Ok ==> old(self).all_memoized(final(self)),
        decreases s.rank(), 1nat,
    {
        broadcast use vstd::std_specs::hash::group_hash_axioms;

        let k = s.key();
        match self.memo.get(&k) {
            Some(v) => {
                return Ok(*v);
            },
            None => {},
        }
        proof {
            lemma_rank_of_key(*s);
        }
        let ghost before = *self;
        self.evaluated = Ghost(self.evaluated@.push(k));
        let ghost pushed = *self;
        let r = match self.oracle.evaluate(s) {
            Evaluation::Value(v) => Ok(v),
            Evaluation::Mode(m) => self.blended(s, m),
            Evaluation::ModeWithValue(m, v) => match self.blended(s, m) {
                Ok(b) => match b.checked_add(v) {
                    Some(t) => Ok(t),
                    None => Err(SearchError::Overflow),
                },
                Err(x) => Err(x),
            },
        };
        let ghost mid = *self;
        proof {
            if self.oracle.spec_evaluate(*s) is Value {
                assert(mid.evaluated() == pushed.evaluated());
                assert(pushed.evaluated().take(pushed.evaluated().len() as int) =~= pushed.evaluated());
            }
            assert(pushed.grows_by_fresh(&mid, s.rank() as int));
            assert(r is Ok ==> pushed.all_memoized(&mid));
        }
        match r {
            Ok(v) => {
                self.memo.insert(k, v);
                assert forall|t: S| #[trigger]
                    self.memo@.contains_key(t.spec_key()) implies score(
                    self.oracle,
                    self.ratio,
                    t,
                ) == Ok::<int, SearchError>(self.memo@[t.spec_key()] as int) by {
                    if t.spec_key() == k {
                        S::lemma_key_injective(t, *s);
                    }
                }
            },
            Err(_) => {},
        }
        proof {
            let n0 = before.evaluated().len();
            let log = self.evaluated();
            let lp = pushed.evaluated();
            assert(log == mid.evaluated());
            assert forall|j: int| 0 <= j < lp.len() implies log[j] == lp[j] by {
                assert(log.take(lp.len() as int)[j] == log[j]);
            }
            assert(log[n0 as int] == k);
            assert(log.take(n0 as int) =~= before.evaluated()) by {
                assert forall|j: int| 0 <= j < n0 implies log[j] == before.evaluated()[j] by {
                    assert(lp[j] == before.evaluated()[j]);
                }
            }
            assert forall|j1: int, j2: int| n0 <= j1 < j2 < log.len() implies #[trigger] log[j1]
                != #[trigger] log[j2] by {
                if j1 == n0 {
                    assert(rank_of_key::<S>(log[j2]) < s.rank());
                }
            }
            assert forall|j: int| n0 <= j < log.len() implies !before.memo_keys().contains(
                #[trigger] log[j],
            ) && rank_of_key::<S>(log[j]) < s.rank() + 1 by {
                if j > n0 {
                    assert(!pushed.memo_keys().contains(log[j]));
                }
            }
            assert forall|key: u64| #[trigger]
                self.memo_keys().contains(key) implies before.memo_keys().contains(key) || exists|
                j: int,
            | n0 <= j < log.len() && log[j] == key by {
                if key == k {
                    assert(log[n0 as int] == key);
                } else if !before.memo_keys().contains(key) {
                    assert(mid.memo_keys().contains(key));
                    let j = choose|j: int| lp.len() <= j < log.len() && log[j] == key;
                    assert(log[j] == key);
                }
            }
            assert forall|key: u64| before.memo_keys().contains(key) implies self.memo_keys().contains(
                key,
            ) by {
                assert(mid.memo_keys().contains(key));
            }
            if r is Ok {
                assert forall|j: int| n0 <= j < log.len() implies self.memo_keys().contains(
                    #[trigger] log[j],
                ) by {
                    if j > n0 {
                        assert(mid.memo_keys().contains(log[j]));
                    }
                }
            }
        }
        r
    }

    /// The legal decision of `s` whose successor scores highest (the first such on a tie),
    /// with that score; `None` when `s` has no legal decision.
    pub fn select(&mut self, s: &S) -> (r: Result<Option<(S::Decision, i64)>, SearchError>)
        requires
            old(self).wf(),
        ensures
            final(self).wf(),
            final(self).spec_oracle() == old(self).spec_oracle(),
            final(self).spec_ratio() == old(self).spec_ratio(),
            agrees_choice(r, selection(old(self).spec_oracle(), old(self).spec_ratio(), *s)),
            s.spec_decisions().len() == 0 ==> r == Ok::<Option<(S::Decision, i64)>, SearchError>(
                None,
            ),
            old(self).grows_by_fresh(final(self), s.rank() as int),
            r is Ok ==> old(self).all_memoized(final(self)),
    {
        let ghost start = *self;
        let ds = s.decisions();
        let mut best: Option<(S::Decision, i64)> = None;
        let mut i: usize = 0;
        while i < ds.len()
            invariant
                self.wf(),
                self.oracle == old(self).oracle,
                self.ratio == old(self).ratio,
                ds@ == s.spec_decisions(),
                0 <= i <= ds@.len(),
                agrees_choice(Ok(best), best_of(self.oracle, self.ratio, *s, i as nat)),
                start == *old(self),
                start.grows_by_fresh(self, s.rank() as int),
                start.all_memoized(self),
            decreases ds.len() - i,
        {
            let d = &ds[i];
            assert(s.spec_decisions()[i as int] == *d);
            proof {
                S::lemma_rank_decreases(*s, *d);
            }
            let c = s.successor(d);
            let ghost mid = *self;
            let res = self.evaluate(&c);
            proof {
                Self::lemma_chain(&start, &mid, self, s.rank() as int, c.rank() + 1int);
            }
            let v = match res {
                Ok(v) => v,
                Err(x) => {
                    proof {
                        lemma_best_error_persists(
                            self.oracle,
                            self.ratio,
                            *s,
                            (i + 1) as nat,
                            ds@.len(),
                            x,
                        );
                    }
                    return Err(x);
                },
            };
            best =
            match best {
                None => Some((S::copy_decision(d), v)),
                Some((bd, bv)) => if v > bv {
                    Some((S::copy_decision(d), v))
                } else {
                    Some((bd, bv))
                },
            };
            i = i + 1;
        }
        Ok(best)
    }

    /// The blend of the scores of the successors of `s`.
    fn blended(&mut self, s: &S, m: Mode) -> (r: Result<i64, SearchError>)
        requires
            old(self).wf(),
        ensures
            final(self).wf(),
            final(self).spec_oracle() == old(self).spec_oracle(),
            final(self).spec_ratio() == old(self).spec_ratio(),
            agrees(
                r,
                blend_children(
                    old(self).spec_ratio(),
                    s.spec_decisions().len(),
                    fold_children(
                        old(self).spec_oracle(),
                        old(self).spec_ratio(),
                        *s,
                        m,
                        s.spec_decisions().len(),
                    ),
                ),
            ),
            old(self).grows_by_fresh(final(self), s.rank() as int),
            r is Ok ==> old(self).all_memoized(final(self)),
        decreases s.rank(), 0nat,
    {
        let ghost start = *self;
        let ds = s.decisions();
        if ds.len() == 0 {
            return Err(SearchError::DeadEnd);
        }
        let mut minmax: i64 = 0;
        let mut sum: i64 = 0;
        let mut i: usize = 0;
        while i < ds.len()
            invariant
                self.wf(),
                self.oracle == old(self).oracle,
                self.ratio == old(self).ratio,
                ds@ == s.spec_decisions(),
                0 <= i <= ds@.len(),
                start == *old(self),
                start.grows_by_fresh(self, s.rank() as int),
                start.all_memoized(self),
                fold_children(self.oracle, self.ratio, *s, m, i as nat) == Ok::<
                    (int, int),
                    SearchError,
                >((minmax as int, sum as int)),
            decreases ds.len() - i,
        {
            let d = &ds[i];
            proof {
                S::lemma_rank_decreases(*s, *d);
            }
            let c = s.successor(d);
            let ghost mid = *self;
            let res = self.evaluate(&c);
            proof {
                Self::lemma_chain(&start, &mid, self, s.rank() as int, c.rank() + 1int);
            }
            let v = match res {
                Ok(v) => v,
                Err(x) => {
                    proof {
                        lemma_fold_error_persists(
                            self.oracle,
                            self.ratio,
                            *s,
                            m,
                            (i + 1) as nat,
                            ds@.len(),
                            x,
                        );
                    }
                    return Err(x);
                },
            };
            sum = match sum.checked_add(v) {
                Some(t) => t,
                None => {
                    proof {
                        lemma_fold_error_persists(
                            self.oracle,
                            self.ratio,
                            *s,
                            m,
                            (i + 1) as nat,
                            ds@.len(),
                            SearchError::Overflow,
                        );
                    }
                    return Err(SearchError::Overflow);
                },
            };
            minmax = if i == 0 {
                v
            } else {
                match m {
                    Mode::Maximize => if v > minmax {
                        v
                    } else {
                        minmax
                    },
                    Mode::Minimize => if v < minmax {
                        v
                    } else {
                        minmax
                    },
                }
            };
            i = i + 1;
        }
        Ok(blend_exec(self.ratio, minmax, sum))
    }
}

/// The memoizing evaluator for `oracle` at `ratio`: a session whose `evaluate` computes
/// the score of each state once and whose `select` picks decisions by those scores.
pub fn cache<S: State, E: Eval<S>>(oracle: E, ratio: Ratio) -> (r: Engine<S, E>)
    requires
        ratio.wf(),
    ensures
        r.wf(),
        r.spec_oracle() == oracle,
        r.spec_ratio() == ratio,
        r.memo_keys() == Set::<u64>::empty(),
        r.evaluated() == Seq::<u64>::empty(),
        r.evaluated_once(),
{
    Engine::new(oracle, ratio)
}

/// The plain minimax value of `s`: no blend, no summed term, no bound on the integers.
pub open spec fn minimax<S: State, E: Eval<S>>(e: E, s: S) -> int
    decreases s.rank(), 1nat, 0nat,
{
    let n = s.spec_decisions().len();
    match e.spec_evaluate(s) {
        Evaluation::Value(v) => v as int,
        Evaluation::Mode(m) => best_child(e, s, m, n),
        Evaluation::ModeWithValue(m, v) => best_child(e, s, m, n) + v,
    }
}

/// The best minimax value for `m` among the first `i` successors of `s`.
pub open spec fn best_child<S: State, E: Eval<S>>(e: E, s: S, m: Mode, i: nat) -> int
    decreases s.rank(), 0nat, i,
{
    if i == 0 || i > s.spec_decisions().len() {
        0
    } else {
        let c = child(s, i - 1);
        let v = if c.rank() < s.rank() {
            minimax(e, c)
        } else {
            0
        };
        if i == 1 {
            v
        } else {
            pick(m, best_child(e, s, m, (i - 1) as nat), v)
        }
    }
}

/// The summed-successor value of `s`: each node scores the sum of its successors' values.
pub open spec fn summed<S: State, E: Eval<S>>(e: E, s: S) -> int
    decreases s.rank(), 1nat, 0nat,
{
    let n = s.spec_decisions().len();
    match e.spec_evaluate(s) {
        Evaluation::Value(v) => v as int,
        Evaluation::Mode(m) => sum_children(e, s, n),
        Evaluation::ModeWithValue(m, v) => sum_children(e, s, n) + v,
    }
}

/// The sum of the summed-successor values of the first `i` successors of `s`.
pub open spec fn sum_children<S: State, E: Eval<S>>(e: E, s: S, i: nat) -> int
    decreases s.rank(), 0nat, i,
{
    if i == 0 || i > s.spec_decisions().len() {
        0
    } else {
        let c = child(s, i - 1);
        sum_children(e, s, (i - 1) as nat) + if c.rank() < s.rank() {
            summed(e, c)
        } else {
            0
        }
    }
}

proof fn lemma_blend_extremes(num: nat, den: nat, minmax: int, sum: int)
    requires
        0 < den,
    ensures
        num == den ==> blend(num, den, minmax, sum) == minmax,
        num == 0 ==> blend(num, den, minmax, sum) == sum,
{
    let d = den as int;
    assert(div_toward_zero(d * minmax, d) == minmax) by (nonlinear_arith)
        requires
            0 < d,
    ;
    assert(div_toward_zero(d * sum, d) == sum) by (nonlinear_arith)
        requires
            0 < d,
    ;
    if num == den {
        assert(num * minmax + (den - num) * sum == d * minmax);
    }
    if num == 0 {
        assert(num * minmax + (den - num) * sum == d * sum);
    }
}

/// At ratio 1 every score that is computed is the plain minimax value.
pub proof fn lemma_full_ratio_is_minimax<S: State, E: Eval<S>>(e: E, q: Ratio, s: S)
    requires
        q.wf(),
        q.spec_num() == q.spec_den(),
        score(e, q, s) is Ok,
    ensures
        score(e, q, s) == Ok::<int, SearchError>(minimax(e, s)),
    decreases s.rank(), 1nat, 0nat,
{
    let n = s.spec_decisions().len();
    match e.spec_evaluate(s) {
        Evaluation::Value(v) => {},
        Evaluation::Mode(m) => {
            lemma_fold_minimax(e, q, s, m, n);
            lemma_blend_extremes(q.spec_num(), q.spec_den(), fold_children(e, q, s, m, n)->Ok_0.0, fold_children(e, q, s, m, n)->Ok_0.1);
        },
        Evaluation::ModeWithValue(m, v) => {
            lemma_fold_minimax(e, q, s, m, n);
            lemma_blend_extremes(q.spec_num(), q.spec_den(), fold_children(e, q, s, m, n)->Ok_0.0, fold_children(e, q, s, m, n)->Ok_0.1);
        },
    }
}

proof fn lemma_fold_minimax<S: State, E: Eval<S>>(e: E, q: Ratio, s: S, m: Mode, i: nat)
    requires
        q.wf(),
        q.spec_num() == q.spec_den(),
        i <= s.spec_decisions().len(),
        i > 0 ==> fold_children(e, q, s, m, i) is Ok,
    ensures
        i > 0 ==> fold_children(e, q, s, m, i)->Ok_0.0 == best_child(e, s, m, i),
    decreases s.rank(), 0nat, i,
{
    if i > 0 {
        let c = child(s, i - 1);
        if i > 1 {
            lemma_fold_minimax(e, q, s, m, (i - 1) as nat);
        }
        if c.rank() < s.rank() {
            lemma_full_ratio_is_minimax(e, q, c);
        }
    }
}

/// At ratio 0 every score that is computed is the summed-successor value.
pub proof fn lemma_zero_ratio_is_summed<S: State, E: Eval<S>>(e: E, q: Ratio, s: S)
    requires
        q.wf(),
        q.spec_num() == 0,
        score(e, q, s) is Ok,
    ensures
        score(e, q, s) == Ok::<int, SearchError>(summed(e, s)),
    decreases s.rank(), 1nat, 0nat,
{
    let n = s.spec_decisions().len();
    match e.spec_evaluate(s) {
        Evaluation::Value(v) => {},
        Evaluation::Mode(m) => {
            lemma_fold_summed(e, q, s, m, n);
            lemma_blend_extremes(q.spec_num(), q.spec_den(), fold_children(e, q, s, m, n)->Ok_0.0, fold_children(e, q, s, m, n)->Ok_0.1);
        },
        Evaluation::ModeWithValue(m, v) => {
            lemma_fold_summed(e, q, s, m, n);
            lemma_blend_extremes(q.spec_num(), q.spec_den(), fold_children(e, q, s, m, n)->Ok_0.0, fold_children(e, q, s, m, n)->Ok_0.1);
        },
    }
}

proof fn lemma_fold_summed<S: State, E: Eval<S>>(e: E, q: Ratio, s: S, m: Mode, i: nat)
    requires
        q.wf(),
        q.spec_num() == 0,
        i <= s.spec_decisions().len(),
        fold_children(e, q, s, m, i) is Ok,
    ensures
        fold_children(e, q, s, m, i)->Ok_0.1 == sum_children(e, s, i),
    decreases s.rank(), 0nat, i,
{
    if i > 0 {
        let c = child(s, i - 1);
        lemma_fold_summed(e, q, s, m, (i - 1) as nat);
        if c.rank() < s.rank() {
            lemma_zero_ratio_is_summed(e, q, c);
        }
    }
}

/// Two `select` calls with the same oracle and ratio on the same state give the same
/// decision and score, whatever the memo held before each.
pub proof fn lemma_select_deterministic<S: State, E: Eval<S>>(
    e: E,
    q: Ratio,
    s: S,
    r1: Result<Option<(S::Decision, i64)>, SearchError>,
    r2: Result<Option<(S::Decision, i64)>, SearchError>,
)
    requires
        agrees_choice(r1, selection(e, q, s)),
        agrees_choice(r2, selection(e, q, s)),
    ensures
        r1 == r2,
{
}

} // verus!
