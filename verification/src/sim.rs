use vstd::prelude::*;

verus! {

/// How many values a randomized simulation holds.
pub const ITEM_COUNT: usize = 32;

/// The micro-step the animation is currently showing.
///
/// Bubble sort is decomposed into five kinds of micro-step so that a renderer
/// gets a distinct, highlightable instant for marking a pair, for comparing
/// it, and for showing a swap, before the cursor moves on.
#[derive(Clone, Copy, Debug, PartialEq, Eq, Structural)]
pub enum Step {
    Mark,
    Compare,
    SwapHappened,
    Next,
    Finished,
}

/// The mathematical model of a simulation: the values being sorted, the
/// cursor naming the left element of the active pair, the current micro-step,
/// whether the current pass has swapped anything yet, and how many full
/// passes have completed.
#[verifier::ext_equal]
pub ghost struct SimView {
    pub items: Seq<u8>,
    pub cursor: nat,
    pub step: Step,
    pub swapped_any: bool,
    pub pass: nat,
}

/// The prefix of length `m` is sorted non-decreasing.
pub open spec fn sorted_prefix(s: Seq<u8>, m: int) -> bool {
    forall|i: int, j: int| #![trigger s[i], s[j]] 0 <= i <= j < m && j < s.len() ==> s[i] <= s[j]
}

/// The whole sequence is sorted non-decreasing.
pub open spec fn sorted(s: Seq<u8>) -> bool {
    sorted_prefix(s, s.len() as int)
}

/// The last `pass` positions hold their final sorted values: they are in
/// order among themselves and no earlier element exceeds any of them.
pub open spec fn suffix_settled(s: Seq<u8>, pass: int) -> bool {
    forall|i: int, j: int|
        #![trigger s[i], s[j]]
        0 <= i <= j < s.len() && s.len() - pass <= j ==> s[i] <= s[j]
}

/// Every element strictly before `c` is at most `s[c]`: the running maximum
/// of the current pass sits under the cursor.
pub open spec fn prefix_max_at(s: Seq<u8>, c: int) -> bool {
    forall|i: int| #![trigger s[i]] 0 <= i < c ==> s[i] <= s[c]
}

/// Every element up to and including `c` is at most `s[c + 1]`: the running
/// maximum of the current pass has moved past the cursor.
pub open spec fn prefix_carried(s: Seq<u8>, c: int) -> bool {
    forall|i: int| #![trigger s[i]] 0 <= i <= c ==> s[i] <= s[c + 1]
}

/// The state invariant: every state reachable from a fresh simulation
/// satisfies it, and `advance` preserves it.
pub open spec fn inv(v: SimView) -> bool {
    let n = v.items.len() as int;
    &&& n >= 2
    &&& v.pass + 1 <= n
    &&& v.cursor + v.pass + 1 <= n
    &&& suffix_settled(v.items, v.pass as int)
    &&& (v.step != Step::Finished ==> v.cursor + v.pass + 2 <= n || (v.cursor == 0 && v.pass
        + 1 == n))
    &&& (v.step != Step::Finished && v.pass + 1 == n ==> !v.swapped_any)
    &&& ((v.step == Step::Mark || v.step == Step::Compare) ==> prefix_max_at(
        v.items,
        v.cursor as int,
    ))
    &&& ((v.step == Step::SwapHappened || v.step == Step::Next) ==> prefix_carried(
        v.items,
        v.cursor as int,
    ))
    &&& (v.step == Step::SwapHappened ==> v.swapped_any)
    &&& (!v.swapped_any && (v.step == Step::Mark || v.step == Step::Compare)
        ==> sorted_prefix(v.items, v.cursor as int + 1))
    &&& (!v.swapped_any && v.step == Step::Next ==> sorted_prefix(v.items, v.cursor as int + 2))
    &&& (v.step == Step::Finished ==> sorted(v.items))
}

/// The state a simulation starts in: cursor at the left edge, about to mark
/// the first pair, no pass completed and nothing swapped yet.
pub open spec fn initial(items: Seq<u8>) -> SimView {
    SimView { items, cursor: 0, step: Step::Mark, swapped_any: false, pass: 0 }
}

/// The transition table of the state machine: what one call to `advance`
/// does to a state.
pub open spec fn advance_spec(v: SimView) -> SimView {
    let n = v.items.len() as int;
    match v.step {
        Step::Mark => SimView { step: Step::Compare, ..v },
        Step::Compare => {
            if v.items[v.cursor as int] > v.items[v.cursor as int + 1] {
                SimView {
                    items: v.items.update(v.cursor as int, v.items[v.cursor as int + 1]).update(
                        v.cursor as int + 1,
                        v.items[v.cursor as int],
                    ),
                    step: Step::SwapHappened,
                    swapped_any: true,
                    ..v
                }
            } else {
                SimView { step: Step::Next, ..v }
            }
        },
        Step::SwapHappened => SimView { step: Step::Next, ..v },
        Step::Next => {
            if v.cursor + 1 < n - 1 - v.pass {
                SimView { cursor: v.cursor + 1, step: Step::Mark, ..v }
            } else if v.swapped_any {
                SimView { cursor: 0, step: Step::Mark, swapped_any: false, pass: v.pass + 1, ..v }
            } else {
                SimView { step: Step::Finished, ..v }
            }
        },
        Step::Finished => v,
    }
}

/// How far the machine still is from `Finished`: a measure that every
/// non-final transition strictly decreases.
pub open spec fn step_weight(st: Step) -> int {
    match st {
        Step::Mark => 4,
        Step::Compare => 3,
        Step::SwapHappened => 2,
        Step::Next => 1,
        Step::Finished => 0,
    }
}

/// A bound on the number of `advance` calls left before `Finished`: at most
/// `4·n²` from the initial state.
pub open spec fn rank(v: SimView) -> int {
    if v.step == Step::Finished {
        0
    } else {
        let n = v.items.len() as int;
        (n - 1 - v.pass) * (4 * n) + 4 * (n - 1 - v.cursor) + step_weight(v.step)
    }
}

/// A fresh state satisfies the invariant.
pub proof fn lemma_initial_inv(items: Seq<u8>)
    requires
        items.len() >= 2,
    ensures
        inv(initial(items)),
{
}

/// Swapping two positions of a sequence does not change its multiset.
proof fn lemma_swap_multiset(s: Seq<u8>, c: int)
    requires
        0 <= c,
        c + 1 < s.len(),
    ensures
        s.update(c, s[c + 1]).update(c + 1, s[c]).to_multiset() == s.to_multiset(),
{
    broadcast use vstd::multiset::group_multiset_axioms;
    broadcast use vstd::seq_lib::group_to_multiset_ensures;

    let a = s[c];
    let b = s[c + 1];
    let s1 = s.update(c, b);
    let s2 = s1.update(c + 1, a);
    assert(s.contains(a));
    assert(s1[c + 1] == b);
    assert(s1.to_multiset() == s.to_multiset().insert(b).remove(a));
    assert(s2.to_multiset() == s1.to_multiset().insert(a).remove(b));
    assert forall|x: u8| s2.to_multiset().count(x) == s.to_multiset().count(x) by {
        assert(s.to_multiset().count(a) > 0);
    }
    assert(s2.to_multiset() =~= s.to_multiset());
}

/// Law: the collection is only permuted, never grown or shrunk — one call
/// to `advance` keeps the multiset of items exactly.
pub proof fn lemma_advance_preserves_multiset(v: SimView)
    requires
        inv(v),
    ensures
        advance_spec(v).items.to_multiset() == v.items.to_multiset(),
        advance_spec(v).items.len() == v.items.len(),
{
    let c = v.cursor as int;
    match v.step {
        Step::Compare => {
            if v.items[c] > v.items[c + 1] {
                lemma_cursor_in_bounds(v);
                lemma_swap_multiset(v.items, c);
            }
        },
        _ => {},
    }
}

/// Law: the cursor can always address the active pair — whenever the step is
/// `Compare` or `SwapHappened`, `cursor + 1` is a valid index.
pub proof fn lemma_cursor_in_bounds(v: SimView)
    requires
        inv(v),
        v.step == Step::Compare || v.step == Step::SwapHappened,
    ensures
        v.cursor + 1 < v.items.len(),
{
}

/// Law: a finished machine is inert — `advance` leaves every field of a
/// `Finished` state unchanged.
pub proof fn lemma_finished_idempotent(v: SimView)
    requires
        v.step == Step::Finished,
    ensures
        advance_spec(v) == v,
{
}

/// Law: when the machine reaches `Finished` the items are sorted
/// non-decreasing, pair by pair and over any two positions.
pub proof fn lemma_finished_sorted(v: SimView)
    requires
        inv(v),
        v.step == Step::Finished,
    ensures
        sorted(v.items),
        forall|i: int|
            0 <= i && i + 1 < v.items.len() ==> #[trigger] v.items[i] <= v.items[i + 1],
{
    assert forall|i: int| 0 <= i && i + 1 < v.items.len() implies #[trigger] v.items[i]
        <= v.items[i + 1] by {
        assert(v.items[i] <= v.items[i + 1]);
    }
}

/// Law: `pass` never decreases, and it rises — by exactly one — only on the
/// pass-boundary transition out of `Next` after a pass that swapped.
pub proof fn lemma_pass_monotonic(v: SimView)
    requires
        inv(v),
    ensures
        v.pass <= advance_spec(v).pass,
        advance_spec(v).pass <= v.pass + 1,
        advance_spec(v).pass == v.pass + 1 <==> (v.step == Step::Next && v.swapped_any && v.cursor
            + 1 >= v.items.len() - 1 - v.pass),
        advance_spec(v).pass == v.pass + 1 ==> advance_spec(v).step == Step::Mark,
{
}

/// The invariant is preserved by every transition.
pub proof fn lemma_advance_preserves_inv(v: SimView)
    requires
        inv(v),
    ensures
        inv(advance_spec(v)),
{
    let n = v.items.len() as int;
    let s = v.items;
    let c = v.cursor as int;
    let p = v.pass as int;
    match v.step {
        Step::Mark => {},
        Step::Compare => {
            if s[c] > s[c + 1] {
                assert(c + p + 2 <= n) by {
                    if !(c + p + 2 <= n) {
                        assert(s[0] <= s[1]);
                    }
                }
                let s2 = s.update(c, s[c + 1]).update(c + 1, s[c]);
                assert forall|i: int, j: int|
                    0 <= i <= j < s2.len() && s2.len() - p <= j implies s2[i] <= s2[j] by {
                    assert(s[i] <= s[j]);
                    assert(s[c] <= s[j]);
                    assert(s[c + 1] <= s[j]);
                }
                assert forall|i: int| 0 <= i <= c implies #[trigger] s2[i] <= s2[c + 1] by {
                    if i < c {
                        assert(s[i] <= s[c]);
                    }
                }
                assert(prefix_carried(s2, c));
            } else {
                assert forall|i: int| 0 <= i <= c implies #[trigger] s[i] <= s[c + 1] by {
                    if i < c {
                        assert(s[i] <= s[c]);
                    }
                }
                assert(prefix_carried(s, c));
                if !v.swapped_any {
                    assert forall|i: int, j: int|
                        0 <= i <= j < c + 2 && j < s.len() implies s[i] <= s[j] by {
                        if j == c + 1 {
                            assert(s[i] <= s[c + 1]);
                        } else {
                            assert(s[i] <= s[j]);
                        }
                    }
                    assert(sorted_prefix(s, c + 2));
                }
            }
        },
        Step::SwapHappened => {},
        Step::Next => {
            if c + 1 >= n - 1 - p {
                if v.swapped_any {
                    assert(c + p + 2 <= n);
                    assert(c + 1 == n - 1 - p);
                    assert forall|i: int, j: int|
                        0 <= i <= j < s.len() && s.len() - (p + 1) <= j implies s[i] <= s[j] by {
                        if j == n - p - 1 {
                            if i < j {
                                assert(s[i] <= s[c + 1]);
                            }
                        } else {
                            assert(s[i] <= s[j]);
                        }
                    }
                    assert(suffix_settled(s, p + 1));
                } else {
                    assert forall|i: int, j: int|
                        0 <= i <= j < s.len() implies s[i] <= s[j] by {
                        if j < c + 2 {
                            assert(s[i] <= s[j]);
                        } else {
                            assert(s.len() - p <= j);
                            assert(s[i] <= s[j]);
                        }
                    }
                    assert(sorted(s));
                }
            }
        },
        Step::Finished => {},
    }
}

/// Law: termination in a quadratic number of calls — from any valid
/// non-final state, `advance` strictly decreases `rank`, which is positive
/// and at most `4·n²` (it equals `4·n²` in the initial state), so `Finished`
/// is reached within `4·n²` calls.
pub proof fn lemma_advance_decreases_rank(v: SimView)
    requires
        inv(v),
        v.step != Step::Finished,
    ensures
        1 <= rank(v),
        rank(v) <= 4 * v.items.len() * v.items.len(),
        rank(advance_spec(v)) < rank(v),
{
    let n = v.items.len() as int;
    let c = v.cursor as int;
    let p = v.pass as int;
    assert((n - 1 - p) * (4 * n) >= 0) by (nonlinear_arith)
        requires
            n - 1 - p >= 0,
            n >= 2,
    ;
    assert((n - 1 - p) * (4 * n) <= 4 * n * n - 4 * n) by (nonlinear_arith)
        requires
            0 <= n - 1 - p <= n - 1,
            n >= 2,
    ;
    if v.step == Step::Next && !(c + 1 < n - 1 - p) && v.swapped_any {
        assert((n - 1 - p) * (4 * n) - (n - 1 - (p + 1)) * (4 * n) == 4 * n) by (nonlinear_arith);
    }
}

/// The step-driven bubble-sort animation state: a fixed collection of
/// values, sorted one micro-step per `advance` call, with just enough
/// bookkeeping for a renderer to resume at any paused instant.
pub struct Sim {
    items: Vec<u8>,
    cursor: usize,
    step: Step,
    swapped_any: bool,
    pass: usize,
}

impl View for Sim {
    type V = SimView;

    closed spec fn view(&self) -> SimView {
        SimView {
            items: self.items@,
            cursor: self.cursor as nat,
            step: self.step,
            swapped_any: self.swapped_any,
            pass: self.pass as nat,
        }
    }
}

/// Relies on `rand::Fill::try_fill` on a byte slice (which delegates to
/// `try_fill_bytes`) with `rand::thread_rng`: the fill writes through the
/// slice in place, so the length cannot change, and a reported failure of
/// the random source comes back as `false`. An operating-system source
/// unavailable at the generator's first per-thread initialization aborts
/// instead — the fatal startup case.
#[verifier::external_body]
fn fill_random(buf: &mut Vec<u8>) -> (ok: bool)
    ensures
        final(buf)@.len() == old(buf)@.len(),
{
    let mut rng = rand::thread_rng();
    rand::Fill::try_fill(buf.as_mut_slice(), &mut rng).is_ok()
}

impl Sim {
    /// The well-formedness of a simulation: its model satisfies the state
    /// invariant.
    pub open spec fn wf(&self) -> bool {
        inv(self@)
    }

    /// Starts a simulation over the given values, at the first micro-step of
    /// the first pass.
    pub fn new(items: Vec<u8>) -> (s: Sim)
        requires
            items@.len() >= 2,
        ensures
            s@ == initial(items@),
            s.wf(),
    {
        let s = Sim { items, cursor: 0, step: Step::Mark, swapped_any: false, pass: 0 };
        proof {
            lemma_initial_inv(s@.items);
            assert(s@ =~= initial(s@.items));
        }
        s
    }

    /// Starts a simulation over `ITEM_COUNT` values drawn uniformly at
    /// random over the full 8-bit range; `None` exactly when the random
    /// source reported a failure.
    pub fn new_randomized() -> (r: Option<Sim>)
        ensures
            r matches Some(s) ==> s.wf() && s@ == initial(s@.items) && s@.items.len()
                == ITEM_COUNT,
    {
        let mut buf: Vec<u8> = Vec::new();
        let mut i: usize = 0;
        while i < ITEM_COUNT
            invariant
                buf@.len() == i,
                i <= ITEM_COUNT,
            decreases ITEM_COUNT - i,
        {
            buf.push(0);
            i += 1;
        }
        if fill_random(&mut buf) {
            Some(Sim::new(buf))
        } else {
            None
        }
    }

    /// Executes exactly one micro-step of the transition table: the sole
    /// mutating operation. Keeps the items' multiset, and does nothing once
    /// the machine is `Finished`.
    pub fn advance(&mut self)
        requires
            old(self).wf(),
        ensures
            final(self).wf(),
            final(self)@ == advance_spec(old(self)@),
            final(self)@.items.to_multiset() == old(self)@.items.to_multiset(),
            old(self)@.step == Step::Finished ==> final(self)@ == old(self)@,
    {
        match self.step {
            Step::Mark => {
                self.step = Step::Compare;
            },
            Step::Compare => {
                let n = self.items.len();
                proof {
                    assert(self.cursor + 1 < n);
                }
                let a = self.items[self.cursor];
                let b = self.items[self.cursor + 1];
                if a > b {
                    self.items.set(self.cursor, b);
                    self.items.set(self.cursor + 1, a);
                    self.step = Step::SwapHappened;
                    self.swapped_any = true;
                } else {
                    self.step = Step::Next;
                }
            },
            Step::SwapHappened => {
                self.step = Step::Next;
            },
            Step::Next => {
                let n = self.items.len();
                if self.cursor + 1 < n - (1 + self.pass) {
                    self.cursor += 1;
                    self.step = Step::Mark;
                } else if self.swapped_any {
                    self.cursor = 0;
                    self.swapped_any = false;
                    self.step = Step::Mark;
                    self.pass += 1;
                } else {
                    self.step = Step::Finished;
                }
            },
            Step::Finished => {},
        }
        proof {
            assert(self@ =~= advance_spec(old(self)@));
            lemma_advance_preserves_inv(old(self)@);
            lemma_advance_preserves_multiset(old(self)@);
        }
    }

    /// Read-only snapshot of the values being sorted.
    pub fn items(&self) -> (r: &Vec<u8>)
        ensures
            r@ == self@.items,
    {
        &self.items
    }

    /// Read-only snapshot of the cursor: the index of the left element of
    /// the active pair.
    pub fn cursor(&self) -> (r: usize)
        ensures
            r as nat == self@.cursor,
    {
        self.cursor
    }

    /// Read-only snapshot of the current micro-step kind.
    pub fn step(&self) -> (r: Step)
        ensures
            r == self@.step,
    {
        self.step
    }

    /// Read-only snapshot of the number of completed passes.
    pub fn pass(&self) -> (r: usize)
        ensures
            r as nat == self@.pass,
    {
        self.pass
    }
}

} // verus!

