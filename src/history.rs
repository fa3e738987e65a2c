//! A fixed-capacity circular store of the most recent samples and the raw
//! frames they came from.
use vstd::prelude::*;
use vstd::arithmetic::div_mod::{lemma_fundamental_div_mod, lemma_fundamental_div_mod_converse_mod};
use crate::message::{Msg, zero_msg};
use crate::split::copy_bytes;

verus! {

/// What a history slot holds: the sample a frame decoded to (`None` when it
/// did not decode) and the frame's bytes.
pub type Entry = (Option<Msg>, Seq<u8>);

/// The `n`-th entry ever recorded, counting from 1; before the first one
/// (`n <= 0`) the zero sample with an empty frame.
pub open spec fn entry_at(log: Seq<Entry>, n: int) -> Entry {
    if 1 <= n <= log.len() {
        log[n - 1]
    } else {
        (Some(zero_msg()), Seq::<u8>::empty())
    }
}

/// What slot `i` of a buffer of `cap` slots holds after the entries of `log`
/// were recorded: the `n`-th entry goes to slot `n % cap`, and the last one
/// to land in a slot is the one it keeps.
pub open spec fn slot_after(log: Seq<Entry>, cap: nat, i: int) -> Entry
    decreases log.len(),
{
    if log.len() == 0 {
        (Some(zero_msg()), Seq::<u8>::empty())
    } else if log.len() as int % cap as int == i {
        log.last()
    } else {
        slot_after(log.drop_last(), cap, i)
    }
}

/// The `min(k, cap)` latest entries, oldest first, counting entries never
/// written (before the first) as zero samples with empty frames.
pub open spec fn recent_entries(log: Seq<Entry>, cap: nat, k: nat) -> Seq<Entry> {
    let m = if k < cap { k } else { cap };
    Seq::new(m, |j: int| entry_at(log, log.len() - m + 1 + j))
}

proof fn lemma_same_residue(a: int, b: int, cap: int)
    requires
        cap > 0,
        a - cap < b <= a,
        a % cap == b % cap,
    ensures
        a == b,
{
    lemma_fundamental_div_mod(a, cap);
    lemma_fundamental_div_mod(b, cap);
    let d = a / cap - b / cap;
    assert(a - b == cap * d) by (nonlinear_arith)
        requires
            a == cap * (a / cap) + a % cap,
            b == cap * (b / cap) + b % cap,
            a % cap == b % cap,
            d == a / cap - b / cap,
    ;
    assert(d == 0) by (nonlinear_arith)
        requires
            0 <= cap * d < cap,
            cap > 0,
    ;
}

/// Among the last `cap` positions (and those before the first entry) each
/// slot holds exactly the entry of its position.
proof fn lemma_slot_holds_entry(log: Seq<Entry>, cap: nat, n: int)
    requires
        cap > 0,
        log.len() - cap < n <= log.len(),
    ensures
        slot_after(log, cap, n % cap as int) == entry_at(log, n),
    decreases log.len(),
{
    if log.len() > 0 {
        if log.len() as int % cap as int == n % cap as int {
            lemma_same_residue(log.len() as int, n, cap as int);
        } else {
            lemma_slot_holds_entry(log.drop_last(), cap, n);
        }
    }
}

/// The newest `capacity` samples, kept in fixed slots that are overwritten
/// in turn.
pub struct HistoryBuffer {
    messages: Vec<Option<Msg>>,
    raws: Vec<Vec<u8>>,
    cursor: usize,
    log: Ghost<Seq<Entry>>,
}

impl HistoryBuffer {
    /// Number of slots.
    pub closed spec fn capacity(&self) -> nat {
        self.messages@.len()
    }

    /// Every entry recorded so far, oldest first.
    pub closed spec fn log(&self) -> Seq<Entry> {
        self.log@
    }

    /// A well-formed buffer has at least one slot.
    pub proof fn lemma_capacity_positive(&self)
        requires
            self.wf(),
        ensures
            self.capacity() > 0,
    {
    }

    pub closed spec fn wf(&self) -> bool {
        &&& self.messages@.len() > 0
        &&& self.raws@.len() == self.messages@.len()
        &&& self.cursor == self.log@.len() % self.messages@.len()
        &&& forall|i: int|
            0 <= i < self.messages@.len() ==> (#[trigger] self.messages@[i], self.raws@[i]@)
                == slot_after(self.log@, self.messages@.len(), i)
    }

    /// A buffer of `capacity` zero samples with empty frames.
    pub fn new(capacity: usize) -> (r: HistoryBuffer)
        requires
            capacity > 0,
        ensures
            r.wf(),
            r.capacity() == capacity,
            r.log() == Seq::<Entry>::empty(),
    {
        let mut messages: Vec<Option<Msg>> = Vec::new();
        let mut raws: Vec<Vec<u8>> = Vec::new();
        let mut i: usize = 0;
        while i < capacity
            invariant
                i <= capacity,
                messages@.len() == i,
                raws@.len() == i,
                forall|j: int| 0 <= j < i ==> #[trigger] messages@[j] == Some(zero_msg()),
                forall|j: int| 0 <= j < i ==> (#[trigger] raws@[j])@ == Seq::<u8>::empty(),
            decreases capacity - i,
        {
            messages.push(Some(Msg::default()));
            raws.push(Vec::new());
            i = i + 1;
        }
        proof {
            vstd::arithmetic::div_mod::lemma_small_mod(0, capacity as nat);
        }
        let r = HistoryBuffer { messages, raws, cursor: 0, log: Ghost(Seq::empty()) };
        assert forall|i: int| 0 <= i < r.messages@.len() implies (#[trigger] r.messages@[i], r.raws@[i]@)
            == slot_after(r.log@, r.messages@.len(), i) by {}
        r
    }

    /// Appends what one frame gave: the counter moves on by one and the slot
    /// it lands on is overwritten, sample and bytes alike. A frame that did
    /// not decode leaves its slot with no sample.
    pub fn record(&mut self, msg: Option<Msg>, raw: Vec<u8>)
        requires
            old(self).wf(),
        ensures
            final(self).wf(),
            final(self).capacity() == old(self).capacity(),
            final(self).log() == old(self).log().push((msg, raw@)),
    {
        let cap = self.messages.len();
        let next = if self.cursor + 1 == cap { 0 } else { self.cursor + 1 };
        let ghost old_log = self.log@;
        let ghost new_log = old_log.push((msg, raw@));
        proof {
            lemma_fundamental_div_mod(old_log.len() as int, cap as int);
            let q = old_log.len() as int / cap as int;
            if self.cursor + 1 == cap {
                assert(new_log.len() == (q + 1) * cap + 0) by (nonlinear_arith)
                    requires
                        old_log.len() == cap * q + (cap - 1),
                        new_log.len() == old_log.len() + 1,
                ;
                lemma_fundamental_div_mod_converse_mod(new_log.len() as int, cap as int, q + 1, 0);
            } else {
                assert(new_log.len() == q * cap + next) by (nonlinear_arith)
                    requires
                        old_log.len() == cap * q + self.cursor,
                        new_log.len() == old_log.len() + 1,
                        next == self.cursor + 1,
                ;
                lemma_fundamental_div_mod_converse_mod(new_log.len() as int, cap as int, q, next as int);
            }
            assert(new_log.drop_last() =~= old_log);
        }
        self.messages.set(next, msg);
        self.raws.set(next, raw);
        self.cursor = next;
        self.log = Ghost(new_log);
    }

    /// The sample most recently recorded (the zero sample before any; `None`
    /// when the last frame did not decode).
    pub fn current(&self) -> (r: Option<Msg>)
        requires
            self.wf(),
        ensures
            r == entry_at(self.log(), self.log().len() as int).0,
    {
        proof {
            lemma_slot_holds_entry(self.log@, self.messages@.len(), self.log@.len() as int);
        }
        self.messages[self.cursor]
    }

    /// The frame most recently recorded (empty before any).
    pub fn current_raw(&self) -> (r: &[u8])
        requires
            self.wf(),
        ensures
            r@ == entry_at(self.log(), self.log().len() as int).1,
    {
        proof {
            lemma_slot_holds_entry(self.log@, self.messages@.len(), self.log@.len() as int);
        }
        let c = self.cursor;
        assert((self.messages@[c as int], self.raws@[c as int]@) == slot_after(self.log@, self.messages@.len(), c as int));
        assert(self.raws@[c as int]@ == entry_at(self.log@, self.log@.len() as int).1);
        let v = &self.raws[c];
        assert(v@ == self.raws@[c as int]@);
        v.as_slice()
    }

    /// Slot of the first of the `m` latest positions, and how many whole
    /// turns of the buffer lie before it.
    fn first_of_latest(&self, m: usize) -> (r: (usize, Ghost<int>))
        requires
            self.wf(),
            m <= self.capacity(),
        ensures
            r.0 < self.capacity(),
            self.log().len() - m + 1 == r.1@ * self.capacity() + r.0,
    {
        let cap = self.messages.len();
        let ghost len = self.log@.len() as int;
        proof {
            lemma_fundamental_div_mod(len, cap as int);
        }
        let ghost q = len / cap as int;
        let c = self.cursor;
        assert(len == q * cap + c) by (nonlinear_arith)
            requires
                len == cap * q + c,
        ;
        if c + 1 >= m {
            let s = c + 1 - m;
            if s == cap {
                assert(len - m + 1 == (q + 1) * cap + 0) by (nonlinear_arith)
                    requires
                        len == q * cap + c,
                        s == c + 1 - m,
                        s == cap,
                ;
                (0, Ghost(q + 1))
            } else {
                (s, Ghost(q))
            }
        } else {
            let s = c + 1 + (cap - m);
            assert(len - m + 1 == (q - 1) * cap + s) by (nonlinear_arith)
                requires
                    len == q * cap + c,
                    s == c + 1 + cap - m,
            ;
            (s, Ghost(q - 1))
        }
    }

    /// The samples of the `min(k, capacity)` latest positions, oldest first;
    /// positions before the first entry give the zero sample, frames that
    /// did not decode `None`.
    pub fn recent(&self, k: usize) -> (r: Vec<Option<Msg>>)
        requires
            self.wf(),
        ensures
            r@.len() == recent_entries(self.log(), self.capacity(), k as nat).len(),
            forall|j: int|
                0 <= j < r@.len() ==> #[trigger] r@[j] == recent_entries(
                    self.log(),
                    self.capacity(),
                    k as nat,
                )[j].0,
    {
        let cap = self.messages.len();
        let m = if k < cap { k } else { cap };
        let ghost len = self.log@.len() as int;
        let (mut idx, Ghost(q0)) = self.first_of_latest(m);
        let ghost mut q = q0;
        let mut out: Vec<Option<Msg>> = Vec::new();
        let mut j: usize = 0;
        while j < m
            invariant
                self.wf(),
                cap == self.capacity(),
                len == self.log().len(),
                m <= cap,
                m == recent_entries(self.log(), self.capacity(), k as nat).len(),
                j <= m,
                idx < cap,
                len - m + 1 + j == q * cap + idx,
                out@.len() == j,
                forall|t: int|
                    0 <= t < j ==> #[trigger] out@[t] == entry_at(self.log(), len - m + 1 + t).0,
            decreases m - j,
        {
            proof {
                lemma_fundamental_div_mod_converse_mod(len - m + 1 + j, cap as int, q, idx as int);
                lemma_slot_holds_entry(self.log@, cap as nat, len - m + 1 + j);
            }
            out.push(self.messages[idx]);
            if idx + 1 == cap {
                proof {
                    assert(len - m + 1 + j + 1 == (q + 1) * cap + 0) by (nonlinear_arith)
                        requires
                            len - m + 1 + j == q * cap + idx,
                            idx + 1 == cap,
                    ;
                    q = q + 1;
                }
                idx = 0;
            } else {
                idx = idx + 1;
            }
            j = j + 1;
        }
        out
    }

    /// The frames of the `min(k, capacity)` latest positions, oldest first;
    /// positions before the first entry give an empty frame.
    pub fn recent_raw(&self, k: usize) -> (r: Vec<Vec<u8>>)
        requires
            self.wf(),
        ensures
            r@.len() == recent_entries(self.log(), self.capacity(), k as nat).len(),
            forall|j: int|
                0 <= j < r@.len() ==> (#[trigger] r@[j])@ == recent_entries(
                    self.log(),
                    self.capacity(),
                    k as nat,
                )[j].1,
    {
        let cap = self.messages.len();
        let m = if k < cap { k } else { cap };
        let ghost len = self.log@.len() as int;
        let (mut idx, Ghost(q0)) = self.first_of_latest(m);
        let ghost mut q = q0;
        let mut out: Vec<Vec<u8>> = Vec::new();
        let mut j: usize = 0;
        while j < m
            invariant
                self.wf(),
                cap == self.capacity(),
                len == self.log().len(),
                m <= cap,
                m == recent_entries(self.log(), self.capacity(), k as nat).len(),
                j <= m,
                idx < cap,
                len - m + 1 + j == q * cap + idx,
                out@.len() == j,
                forall|t: int|
                    0 <= t < j ==> (#[trigger] out@[t])@ == entry_at(self.log(), len - m + 1 + t).1,
            decreases m - j,
        {
            proof {
                lemma_fundamental_div_mod_converse_mod(len - m + 1 + j, cap as int, q, idx as int);
                lemma_slot_holds_entry(self.log@, cap as nat, len - m + 1 + j);
            }
            assert((self.messages@[idx as int], self.raws@[idx as int]@) == slot_after(self.log@, cap as nat, idx as int));
            let v = &self.raws[idx];
            let piece = copy_bytes(v.as_slice());
            assert(piece@ == entry_at(self.log@, len - m + 1 + j).1);
            let ghost before = out@;
            out.push(piece);
            assert forall|t: int| 0 <= t < j + 1 implies (#[trigger] out@[t])@ == entry_at(self.log(), len - m + 1 + t).1 by {
                if t < j {
                    assert(out@[t] == before[t]);
                }
            }
            if idx + 1 == cap {
                proof {
                    assert(len - m + 1 + j + 1 == (q + 1) * cap + 0) by (nonlinear_arith)
                        requires
                            len - m + 1 + j == q * cap + idx,
                            idx + 1 == cap,
                    ;
                    q = q + 1;
                }
                idx = 0;
            } else {
                idx = idx + 1;
            }
            j = j + 1;
        }
        out
    }
}

/// Once at least `k` entries were recorded, the `k` latest positions (at
/// most `cap` of them) are exactly the last entries recorded, oldest first;
/// anything older has been overwritten.
pub proof fn lemma_recent_are_last_written(log: Seq<Entry>, cap: nat, k: nat)
    requires
        cap > 0,
        k <= log.len(),
    ensures
        recent_entries(log, cap, k) == log.subrange(
            log.len() - (if k < cap { k } else { cap }),
            log.len() as int,
        ),
{
    let m = if k < cap { k } else { cap };
    assert(recent_entries(log, cap, k) =~= log.subrange(log.len() - m, log.len() as int));
}

/// Before the buffer has filled, asking for more positions than were
/// recorded gives zero samples with empty frames for the positions before
/// the first entry, then every entry recorded.
pub proof fn lemma_recent_before_full(log: Seq<Entry>, cap: nat, k: nat)
    requires
        log.len() < cap,
        log.len() < k,
    ensures
        recent_entries(log, cap, k) == Seq::new(
            ((if k < cap { k } else { cap }) - log.len()) as nat,
            |j: int| (Some(zero_msg()), Seq::<u8>::empty()),
        ) + log,
{
    let m = if k < cap { k } else { cap };
    assert(recent_entries(log, cap, k) =~= Seq::new(
        (m - log.len()) as nat,
        |j: int| (Some(zero_msg()), Seq::<u8>::empty()),
    ) + log);
}

} // verus!
