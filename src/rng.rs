//! A permuted congruential generator (PCG-XSH-RR) with explicit seeding,
//! and a Fisher–Yates shuffle driven by it.
use vstd::multiset::Multiset;
use vstd::prelude::*;

verus! {

/// Multiplier of the underlying linear congruential step.
pub const PCG_MULTIPLIER: u64 = 6364136223846793005;

/// State of a generator created with `RNG::new`.
pub const DEFAULT_STATE: u64 = 0x853c49e6748fea9b;

/// Increment of a generator created with `RNG::new`.
pub const DEFAULT_INCREMENT: u64 = 0xda3e39cb94b95bdb;

/// How many rejected draws `random_index` tolerates before it takes the
/// last draw as it is.
pub const MAX_INDEX_DRAWS: u32 = 64;

/// The state that follows `state` in the congruential sequence.
#[verifier::opaque]
pub open spec fn next_state(state: u64, increment: u64) -> u64 {
    state.wrapping_mul(PCG_MULTIPLIER).wrapping_add(increment)
}

/// The 32-bit output derived from a state (xorshift, then a data-dependent
/// rotation).
#[verifier::opaque]
pub open spec fn output_of(state: u64) -> u32 {
    let xorshifted = ((state << 18u64) ^ state) >> 27u64;
    let rot = state >> 59u64;
    if rot != 0 {
        ((xorshifted >> rot) | (xorshifted << ((32 - rot) as u64))) as u32
    } else {
        xorshifted as u32
    }
}

/// Draws below this value are rejected by `random_index`, so that the
/// accepted ones are evenly spread over `0..bound`.
pub open spec fn rejection_threshold(bound: u32) -> u32 {
    ((0x1_0000_0000int - bound) % (bound as int)) as u32
}

/// The index that `random_index` returns and the state it leaves, starting
/// in `state` with `tries` rejected draws left to tolerate.
pub open spec fn index_draw(state: u64, increment: u64, bound: u32, tries: nat) -> (u32, u64)
    decreases tries,
{
    let r = output_of(state);
    let s = next_state(state, increment);
    if r >= rejection_threshold(bound) || tries == 0 {
        ((r % bound) as u32, s)
    } else {
        index_draw(s, increment, bound, (tries - 1) as nat)
    }
}

/// `s` with the elements at `i` and `j` exchanged.
pub open spec fn swapped<T>(s: Seq<T>, i: int, j: int) -> Seq<T> {
    s.update(i, s[j]).update(j, s[i])
}

/// The Fisher–Yates pass over the positions `i, i - 1, ..., 1` of `s`:
/// the resulting sequence and the generator state left behind.
pub open spec fn shuffled<T>(state: u64, increment: u64, s: Seq<T>, i: nat) -> (Seq<T>, u64)
    decreases i,
{
    if i == 0 {
        (s, state)
    } else {
        let (j, next) = index_draw(state, increment, (i + 1) as u32, (MAX_INDEX_DRAWS - 1) as nat);
        shuffled(next, increment, swapped(s, i as int, j as int), (i - 1) as nat)
    }
}

/// The highest position that the shuffle of a sequence of length `len`
/// visits (none, below two elements).
pub open spec fn last_position(len: nat) -> nat {
    if len == 0 {
        0
    } else {
        (len - 1) as nat
    }
}

/// The state and increment that `srand(initstate, initseq)` leaves.
pub open spec fn seeded(initstate: u64, initseq: u64) -> (u64, u64) {
    let increment = (initseq << 1u64) | 1u64;
    (next_state(next_state(0, increment).wrapping_add(initstate), increment), increment)
}

/// Relies on `SystemTime::now` and `SystemTime::duration_since`: nanoseconds
/// since the Unix epoch, truncated to 64 bits (0 for a clock set before the
/// epoch). Nothing is promised of the value.
#[verifier::external_body]
fn nanos_since_epoch() -> u64 {
    std::time::SystemTime::now().duration_since(std::time::UNIX_EPOCH).map(|d| d.as_nanos() as u64).unwrap_or(0)
}

/// The Fisher–Yates pass over the positions `i, i - 1, ..., 1` of `s`, where
/// position `k` is exchanged with position `js[k]`.
pub open spec fn fisher_yates<T>(s: Seq<T>, js: Seq<int>, i: int) -> Seq<T>
    decreases i,
{
    if i <= 0 {
        s
    } else {
        fisher_yates(swapped(s, i, js[i]), js, i - 1)
    }
}

/// The exchange positions that the shuffle draws, starting in `state`, for
/// the positions `i, i - 1, ..., 1` (at index `k` the one for position `k`).
pub open spec fn index_choices(state: u64, increment: u64, i: nat) -> Seq<int>
    decreases i,
{
    if i == 0 {
        seq![0int]
    } else {
        let (j, next) = index_draw(state, increment, (i + 1) as u32, (MAX_INDEX_DRAWS - 1) as nat);
        index_choices(next, increment, (i - 1) as nat).push(j as int)
    }
}

proof fn lemma_index_choices_len(state: u64, increment: u64, i: nat)
    ensures
        index_choices(state, increment, i).len() == i + 1,
    decreases i,
{
    if i > 0 {
        let (j, next) = index_draw(state, increment, (i + 1) as u32, (MAX_INDEX_DRAWS - 1) as nat);
        lemma_index_choices_len(next, increment, (i - 1) as nat);
    }
}

/// The pass reads the exchange positions `1..=i` only.
proof fn lemma_fisher_yates_frame<T>(s: Seq<T>, js1: Seq<int>, js2: Seq<int>, i: int)
    requires
        forall|k: int| 1 <= k <= i ==> js1[k] == js2[k],
    ensures
        fisher_yates(s, js1, i) == fisher_yates(s, js2, i),
    decreases i,
{
    if i > 0 {
        lemma_fisher_yates_frame(swapped(s, i, js1[i]), js1, js2, i - 1);
    }
}

/// The shuffle's pass is the Fisher–Yates pass with the drawn positions.
pub proof fn lemma_shuffle_is_fisher_yates<T>(state: u64, increment: u64, s: Seq<T>, i: nat)
    ensures
        shuffled(state, increment, s, i).0 == fisher_yates(s, index_choices(state, increment, i), i as int),
    decreases i,
{
    if i > 0 {
        let (j, next) = index_draw(state, increment, (i + 1) as u32, (MAX_INDEX_DRAWS - 1) as nat);
        let s2 = swapped(s, i as int, j as int);
        lemma_shuffle_is_fisher_yates(next, increment, s2, (i - 1) as nat);
        lemma_index_choices_len(next, increment, (i - 1) as nat);
        let prev = index_choices(next, increment, (i - 1) as nat);
        let all = index_choices(state, increment, i);
        assert(all == prev.push(j as int));
        assert(all[i as int] == j as int);
        lemma_fisher_yates_frame(s2, all, prev, i - 1);
    }
}

proof fn lemma_multiset_insert_cancel<T>(m1: Multiset<T>, m2: Multiset<T>, a: T)
    requires
        m1.insert(a) == m2.insert(a),
    ensures
        m1 == m2,
{
    broadcast use vstd::multiset::group_multiset_axioms;

    assert forall|x: T| m1.count(x) == m2.count(x) by {
        assert(m1.insert(a).count(x) == m2.insert(a).count(x));
        if x == a {
            vstd::multiset::lemma_insert_increases_count_by_1(m1, a);
            vstd::multiset::lemma_insert_increases_count_by_1(m2, a);
        } else {
            vstd::multiset::lemma_insert_other_elements_unchanged(m1, a, x);
            vstd::multiset::lemma_insert_other_elements_unchanged(m2, a, x);
        }
    }
    assert(m1 =~= m2);
}

proof fn lemma_fisher_yates_reaches<T>(s: Seq<T>, t: Seq<T>, i: int) -> (js: Seq<int>)
    requires
        0 <= i < s.len(),
        s.len() == t.len(),
        s.subrange(0, i + 1).to_multiset() == t.subrange(0, i + 1).to_multiset(),
        s.subrange(i + 1, s.len() as int) == t.subrange(i + 1, t.len() as int),
    ensures
        js.len() == s.len(),
        forall|k: int| 1 <= k <= i ==> 0 <= #[trigger] js[k] <= k,
        fisher_yates(s, js, i) == t,
    decreases i,
{
    broadcast use vstd::seq_lib::to_multiset_build;
    broadcast use vstd::seq_lib::to_multiset_contains;
    broadcast use vstd::multiset::group_multiset_axioms;

    let pre_s = s.subrange(0, i + 1);
    let pre_t = t.subrange(0, i + 1);
    if i == 0 {
        assert(pre_s =~= seq![].push(s[0]));
        assert(pre_t =~= seq![].push(t[0]));
        assert(pre_s.to_multiset().count(s[0]) > 0);
        assert(pre_t.to_multiset().count(s[0]) > 0);
        assert(pre_t.contains(s[0]));
        assert(s[0] == t[0]);
        assert forall|k: int| 0 <= k < s.len() implies s[k] == t[k] by {
            if k > 0 {
                assert(s.subrange(1, s.len() as int)[k - 1] == t.subrange(1, t.len() as int)[k - 1]);
            }
        }
        assert(s =~= t);
        return Seq::new(s.len(), |k: int| 0int);
    }
    assert(pre_t[i] == t[i]);
    assert(pre_t.to_multiset().count(t[i]) > 0);
    assert(pre_s.contains(t[i]));
    let j = choose|j: int| 0 <= j < pre_s.len() && pre_s[j] == t[i];
    let s2 = swapped(s, i, j);
    lemma_swap_keeps_multiset(pre_s, i, j);
    assert(s2.subrange(0, i + 1) =~= swapped(pre_s, i, j));
    assert(s2.subrange(0, i + 1) =~= s2.subrange(0, i).push(t[i]));
    assert(pre_t =~= t.subrange(0, i).push(t[i]));
    lemma_multiset_insert_cancel(s2.subrange(0, i).to_multiset(), t.subrange(0, i).to_multiset(), t[i]);
    assert forall|k: int| i <= k < s.len() implies s2[k] == t[k] by {
        if k > i {
            assert(s.subrange(i + 1, s.len() as int)[k - i - 1] == t.subrange(i + 1, t.len() as int)[k - i - 1]);
        }
    }
    assert(s2.subrange(i, s.len() as int) =~= t.subrange(i, t.len() as int));
    let js0 = lemma_fisher_yates_reaches(s2, t, i - 1);
    let js = js0.update(i, j);
    lemma_fisher_yates_frame(s2, js, js0, i - 1);
    assert(js[i] == j);
    js
}

/// Every arrangement of the elements of `s` is what the Fisher–Yates pass
/// gives for some choice of exchange positions, each position `k` exchanged
/// with one in `0..=k`: the range that `random_index(k + 1)` draws from.
pub proof fn lemma_every_arrangement_reachable<T>(s: Seq<T>, t: Seq<T>) -> (js: Seq<int>)
    requires
        s.to_multiset() == t.to_multiset(),
    ensures
        js.len() == s.len(),
        forall|k: int| 1 <= k < s.len() ==> 0 <= #[trigger] js[k] <= k,
        fisher_yates(s, js, last_position(s.len()) as int) == t,
{
    assert(s.len() == t.len()) by {
        vstd::seq_lib::to_multiset_len(s);
        vstd::seq_lib::to_multiset_len(t);
    }
    if s.len() == 0 {
        assert(s =~= t);
        return Seq::empty();
    }
    assert(s.subrange(0, s.len() as int) =~= s);
    assert(t.subrange(0, t.len() as int) =~= t);
    assert(s.subrange(s.len() as int, s.len() as int) =~= t.subrange(t.len() as int, t.len() as int));
    lemma_fisher_yates_reaches(s, t, s.len() - 1)
}

pub struct RNG {
    state: u64,
    increment: u64,
}

impl View for RNG {
    /// The current state and the increment.
    type V = (u64, u64);

    closed spec fn view(&self) -> (u64, u64) {
        (self.state, self.increment)
    }
}

proof fn lemma_swap_keeps_multiset<T>(s: Seq<T>, i: int, j: int)
    requires
        0 <= i < s.len(),
        0 <= j < s.len(),
    ensures
        swapped(s, i, j).to_multiset() == s.to_multiset(),
{
    broadcast use vstd::seq_lib::to_multiset_update;
    broadcast use vstd::multiset::group_multiset_properties;

    let t = s.update(i, s[j]);
    assert(t[j] == s[j]);
    assert(t.to_multiset() == s.to_multiset().insert(s[j]).remove(s[i]));
    assert(t.update(j, s[i]).to_multiset() == t.to_multiset().insert(s[i]).remove(t[j]));
    assert(s.to_multiset().insert(s[j]).remove(s[i]).insert(s[i]).remove(s[j]) =~= s.to_multiset())
        by {
        assert(s.to_multiset().contains(s[i])) by {
            broadcast use vstd::seq_lib::to_multiset_contains;

            assert(s.contains(s[i]));
        }
    }
}

impl RNG {
    /// A generator in its fixed default state.
    pub fn new() -> (r: RNG)
        ensures
            r@ == (DEFAULT_STATE, DEFAULT_INCREMENT),
    {
        RNG { state: DEFAULT_STATE, increment: DEFAULT_INCREMENT }
    }

    /// Reseeds the generator: `initseq` selects the sequence (the increment
    /// is `2 * initseq + 1`, modulo 2^64) and `initstate` the position in it.
    pub fn srand(&mut self, initstate: u64, initseq: u64)
        ensures
            final(self)@ == seeded(initstate, initseq),
    {
        self.state = 0;
        self.increment = (initseq << 1u64) | 1u64;
        self.random();
        self.state = self.state.wrapping_add(initstate);
        self.random();
    }

    /// Seeds the generator from the clock, on sequence 5.
    pub fn seed_from_current_time(&mut self)
        ensures
            exists|t: u64| final(self)@ == seeded(t, 5),
    {
        let t = nanos_since_epoch();
        self.srand(t, 5);
    }

    /// Returns the output of the current state and advances the state.
    pub fn random(&mut self) -> (r: u32)
        ensures
            r == output_of(old(self)@.0),
            final(self)@ == (next_state(old(self)@.0, old(self)@.1), old(self)@.1),
    {
        reveal(next_state);
        reveal(output_of);
        let oldstate = self.state;
        self.state = oldstate.wrapping_mul(PCG_MULTIPLIER).wrapping_add(self.increment);
        let xorshifted: u64 = ((oldstate << 18u64) ^ oldstate) >> 27u64;
        let rot: u64 = oldstate >> 59u64;
        assert(rot < 32) by (bit_vector)
            requires
                rot == oldstate >> 59u64,
        ;
        if rot != 0 {
            ((xorshifted >> rot) | (xorshifted << (32 - rot))) as u32
        } else {
            xorshifted as u32
        }
    }

    /// An index in `0..bound`, by rejection sampling on `random`: draws below
    /// `rejection_threshold(bound)` are discarded, at most `MAX_INDEX_DRAWS - 1`
    /// times.
    pub fn random_index(&mut self, bound: usize) -> (r: usize)
        requires
            0 < bound <= u32::MAX,
        ensures
            r < bound,
            (r as u32, final(self)@.0) == index_draw(
                old(self)@.0,
                old(self)@.1,
                bound as u32,
                (MAX_INDEX_DRAWS - 1) as nat,
            ),
            final(self)@.1 == old(self)@.1,
    {
        let b: u32 = bound as u32;
        let threshold: u32 = 0u32.wrapping_sub(b) % b;
        assert(threshold == rejection_threshold(b));
        let mut tries: u32 = MAX_INDEX_DRAWS - 1;
        loop
            invariant
                tries < MAX_INDEX_DRAWS,
                b == bound,
                b > 0,
                threshold == rejection_threshold(b),
                self@.1 == old(self)@.1,
                index_draw(self@.0, self@.1, b, tries as nat) == index_draw(
                    old(self)@.0,
                    old(self)@.1,
                    b,
                    (MAX_INDEX_DRAWS - 1) as nat,
                ),
            decreases tries,
        {
            let ghost st = self@.0;
            let r = self.random();
            assert(index_draw(st, self@.1, b, tries as nat) == if r >= threshold || tries == 0 {
                ((r % b) as u32, self@.0)
            } else {
                index_draw(self@.0, self@.1, b, (tries - 1) as nat)
            });
            if r >= threshold || tries == 0 {
                return (r % b) as usize;
            }
            tries = tries - 1;
        }
    }

    /// Shuffles `list` in place (Fisher–Yates): for each position `i` from the
    /// last down to 1, the element there is exchanged with the one at
    /// `random_index(i + 1)`.
    pub fn shuffle<T>(&mut self, list: &mut Vec<T>)
        requires
            old(list).len() <= u32::MAX,
        ensures
            (final(list)@, final(self)@.0) == shuffled(
                old(self)@.0,
                old(self)@.1,
                old(list)@,
                last_position(old(list)@.len()),
            ),
            final(self)@.1 == old(self)@.1,
            final(list)@.to_multiset() == old(list)@.to_multiset(),
    {
        let len = list.len();
        if len == 0 {
            return;
        }
        let mut i: usize = len - 1;
        while i > 0
            invariant
                i < len,
                len == list.len(),
                len <= u32::MAX,
                self@.1 == old(self)@.1,
                list@.to_multiset() == old(list)@.to_multiset(),
                shuffled(self@.0, self@.1, list@, i as nat) == shuffled(
                    old(self)@.0,
                    old(self)@.1,
                    old(list)@,
                    last_position(old(list)@.len()),
                ),
            decreases i,
        {
            let j = self.random_index(i + 1);
            proof {
                lemma_swap_keeps_multiset(list@, i as int, j as int);
            }
            if j != i {
                let ghost before = list@;
                let mut tmp = list.remove(i);
                list.set_and_swap(j, &mut tmp);
                list.insert(i, tmp);
                assert(list@ =~= swapped(before, i as int, j as int));
            } else {
                assert(list@ =~= swapped(list@, i as int, j as int));
            }
            i = i - 1;
        }
    }
}

} // verus!
