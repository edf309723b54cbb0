//! The backend pool: an ordered, fixed set of backends, each either
//! `Available` or `Unavailable`, together with a rotation cursor.
//! Selection walks the backends round-robin from the cursor, returns the
//! first available one and advances the cursor to just past it.

use vstd::prelude::*;

verus! {

use vstd::arithmetic::div_mod::{lemma_small_mod, lemma_mod_add_multiples_vanish};

/// An index wrapped back into `[0, n)`; meant for `i` in `[0, 2n)`.
pub open spec fn wrap_index(i: int, n: int) -> int {
    if i < n {
        i
    } else {
        i - n
    }
}

/// The first offset at or after `o` whose backend (in rotation order from
/// `start`) is available, or `None` when no offset up to the pool size is.
pub open spec fn first_available_offset(avail: Seq<bool>, start: int, o: int) -> Option<int>
    decreases avail.len() - o,
{
    let n = avail.len() as int;
    if o < 0 || o >= n {
        None
    } else if avail[wrap_index(start + o, n)] {
        Some(o)
    } else {
        first_available_offset(avail, start, o + 1)
    }
}

/// The offset from `start` that one selection picks: the distance to the
/// first available backend in rotation order.
pub open spec fn selected_offset(avail: Seq<bool>, start: int) -> Option<int> {
    first_available_offset(avail, start, 0)
}

/// The configured addresses whose validity verdict is positive, in order.
/// The verdicts come from the address-validation collaborator, which judges
/// each raw entry before the pool is built.
pub open spec fn accepted_addresses(raw: Seq<Seq<char>>, valid: Seq<bool>) -> Seq<Seq<char>>
    recommends
        raw.len() == valid.len(),
    decreases raw.len(),
{
    if raw.len() == 0 || valid.len() == 0 {
        Seq::empty()
    } else if valid.last() {
        accepted_addresses(raw.drop_last(), valid.drop_last()).push(raw.last())
    } else {
        accepted_addresses(raw.drop_last(), valid.drop_last())
    }
}

/// The number of available backends among the `d` positions that follow
/// `c` in rotation order (wrapping once at most).
pub open spec fn count_available_between(avail: Seq<bool>, c: int, d: int) -> int
    decreases d,
{
    let n = avail.len() as int;
    if d <= 0 {
        0
    } else {
        count_available_between(avail, c, d - 1) + if avail[wrap_index(c + d - 1, n)] {
            1int
        } else {
            0int
        }
    }
}

/// The number of available backends in the pool.
pub open spec fn count_available(avail: Seq<bool>) -> int
    decreases avail.len(),
{
    if avail.len() == 0 {
        0
    } else {
        count_available(avail.drop_last()) + if avail.last() {
            1int
        } else {
            0int
        }
    }
}

/// How many steps of rotation order lead from `c` to `j`.
pub open spec fn rotation_distance(c: int, j: int, n: int) -> int {
    if j >= c {
        j - c
    } else {
        j + n - c
    }
}

/// The error conditions of the balancer. Only `StartupConfig` is fatal;
/// the others abort a single connection.
#[derive(Clone, Copy, Debug, PartialEq, Eq, Structural)]
pub enum LbError {
    NoAvailableBackend,
    BackendIo,
    ClientIo,
    StartupConfig,
}

/// Availability of one backend, as last reported by its health probe.
#[derive(Clone, Copy, Debug, PartialEq, Eq, Structural)]
pub enum State {
    Available,
    Unavailable,
}

/// One upstream server: its address and its current availability.
#[derive(Debug)]
pub struct Backend {
    pub address: String,
    pub state: State,
}

/// The pool: backends in configured order plus the rotation cursor.
#[derive(Debug)]
pub struct RoundRobin {
    backends: Vec<Backend>,
    current_index: usize,
}

impl RoundRobin {
    /// The addresses of the backends, in configured order.
    pub closed spec fn addresses(&self) -> Seq<Seq<char>> {
        self.backends@.map(|i: int, b: Backend| b.address@)
    }

    /// For each backend, whether it is currently `Available`.
    pub closed spec fn availability(&self) -> Seq<bool> {
        self.backends@.map(|i: int, b: Backend| b.state is Available)
    }

    /// The rotation cursor: where the next selection starts its search.
    pub closed spec fn cursor(&self) -> int {
        self.current_index as int
    }

    /// Well-formedness: the cursor stays inside the backend list
    /// (and sits at zero while the list is empty).
    pub closed spec fn wf(&self) -> bool {
        if self.backends@.len() == 0 {
            self.current_index == 0
        } else {
            self.current_index < self.backends@.len()
        }
    }

    /// What well-formedness gives a caller: the cursor bound of the data
    /// model, and that the per-backend views line up.
    pub proof fn lemma_wf_facts(&self)
        requires
            self.wf(),
        ensures
            0 <= self.cursor(),
            self.availability().len() == self.addresses().len(),
            self.addresses().len() > 0 ==> self.cursor() < self.addresses().len(),
            self.addresses().len() == 0 ==> self.cursor() == 0,
    {
    }

    /// Builds a pool over the given addresses. Every backend starts
    /// `Unavailable`: a fresh balancer must not route to a backend that no
    /// probe has verified yet.
    pub fn new(backends: Vec<String>) -> (pool: RoundRobin)
        ensures
            pool.wf(),
            pool.addresses() == backends.deep_view(),
            pool.availability() == Seq::new(backends@.len(), |i: int| false),
            pool.cursor() == 0,
    {
        let mut servers: Vec<Backend> = Vec::new();
        let mut k: usize = 0;
        while k < backends.len()
            invariant
                k <= backends@.len(),
                servers@.len() == k,
                forall|i: int|
                    0 <= i < k ==> (#[trigger] servers@[i]).address@ == backends@[i]@
                        && servers@[i].state is Unavailable,
            decreases backends@.len() - k,
        {
            let address = backends[k].clone();
            servers.push(Backend { address, state: State::Unavailable });
            k = k + 1;
        }
        let pool = RoundRobin { backends: servers, current_index: 0 };
        proof {
            assert(pool.addresses() =~= backends.deep_view());
            assert(pool.availability() =~= Seq::new(backends@.len(), |i: int| false));
        }
        pool
    }

    /// How many backends the pool holds.
    pub fn num_backends(&self) -> (n: usize)
        ensures
            n == self.addresses().len(),
    {
        self.backends.len()
    }

    /// The address of the backend at `index`.
    pub fn address_at(&self, index: usize) -> (a: String)
        requires
            index < self.addresses().len(),
        ensures
            a@ == self.addresses()[index as int],
    {
        self.backends[index].address.clone()
    }

    /// Whether the backend at `index` is currently available.
    pub fn backend_available(&self, index: usize) -> (b: bool)
        requires
            index < self.addresses().len(),
        ensures
            b == self.availability()[index as int],
    {
        self.backends[index].state == State::Available
    }

    /// Records the outcome of one health probe against the backend at
    /// `index`: a successful probe makes it `Available`, a failed one makes
    /// it `Unavailable`, whatever it was before. Nothing else changes.
    pub fn record_probe(&mut self, index: usize, success: bool)
        requires
            old(self).wf(),
            index < old(self).addresses().len(),
        ensures
            final(self).wf(),
            final(self).addresses() == old(self).addresses(),
            final(self).cursor() == old(self).cursor(),
            final(self).availability() == old(self).availability().update(
                index as int,
                success,
            ),
    {
        if success {
            self.backends[index].state = State::Available;
        } else {
            self.backends[index].state = State::Unavailable;
        }
        proof {
            assert(self.addresses() =~= old(self).addresses());
            assert(self.availability() =~= old(self).availability().update(
                index as int,
                success,
            ));
        }
    }

    /// Round-robin selection: starting at the cursor, walks the backends in
    /// configured order (wrapping once) and returns the address of the first
    /// available one, moving the cursor to just past it. Returns `None` —
    /// and leaves the pool unchanged — when the pool is empty or no backend
    /// is available.
    pub fn select_backend(&mut self) -> (r: Option<String>)
        requires
            old(self).wf(),
        ensures
            final(self).wf(),
            final(self).addresses() == old(self).addresses(),
            final(self).availability() == old(self).availability(),
            ({
                let avail = old(self).availability();
                let n = avail.len() as int;
                match selected_offset(avail, old(self).cursor()) {
                    Some(o) => {
                        let j = wrap_index(old(self).cursor() + o, n);
                        &&& r is Some
                        &&& r->0@ == old(self).addresses()[j]
                        &&& final(self).cursor() == wrap_index(j + 1, n)
                    },
                    None => r is None && final(self).cursor() == old(self).cursor(),
                }
            }),
    {
        let n = self.backends.len();
        if n == 0 {
            return None;
        }
        let mut index = self.current_index;
        let mut tries: usize = 0;
        while tries < n
            invariant
                self == old(self),
                old(self).wf(),
                n == self.backends@.len(),
                0 < n,
                index < n,
                tries <= n,
                index as int == wrap_index(old(self).cursor() + tries, n as int),
                selected_offset(old(self).availability(), old(self).cursor())
                    == first_available_offset(
                    old(self).availability(),
                    old(self).cursor(),
                    tries as int,
                ),
            decreases n - tries,
        {
            proof {
                assert(old(self).availability()[index as int] == (
                old(self).backends@[index as int].state is Available));
            }
            if self.backends[index].state == State::Available {
                let address = self.backends[index].address.clone();
                self.current_index = if index + 1 == n {
                    0
                } else {
                    index + 1
                };
                proof {
                    assert(first_available_offset(
                        old(self).availability(),
                        old(self).cursor(),
                        tries as int,
                    ) == Some(tries as int));
                    assert(self.addresses() =~= old(self).addresses());
                    assert(self.availability() =~= old(self).availability());
                }
                return Some(address);
            }
            proof {
                assert(first_available_offset(
                    old(self).availability(),
                    old(self).cursor(),
                    tries as int,
                ) == first_available_offset(
                    old(self).availability(),
                    old(self).cursor(),
                    tries + 1,
                ));
            }
            index = if index + 1 == n {
                0
            } else {
                index + 1
            };
            tries = tries + 1;
        }
        None
    }

    /// Selects a backend for one connection; when the rotation finds no
    /// available backend, reports `NoAvailableBackend` instead.
    pub fn route_request(&mut self) -> (r: Result<String, LbError>)
        requires
            old(self).wf(),
        ensures
            final(self).wf(),
            final(self).addresses() == old(self).addresses(),
            final(self).availability() == old(self).availability(),
            ({
                let avail = old(self).availability();
                let n = avail.len() as int;
                match selected_offset(avail, old(self).cursor()) {
                    Some(o) => {
                        let j = wrap_index(old(self).cursor() + o, n);
                        &&& r is Ok
                        &&& r->Ok_0@ == old(self).addresses()[j]
                        &&& final(self).cursor() == wrap_index(j + 1, n)
                    },
                    None => r == Result::<String, LbError>::Err(LbError::NoAvailableBackend)
                        && final(self).cursor() == old(self).cursor(),
                }
            }),
    {
        match self.select_backend() {
            Some(address) => Ok(address),
            None => Err(LbError::NoAvailableBackend),
        }
    }

    /// Runs `count` consecutive selections and returns the picks in order:
    /// the k-th entry is exactly the pick `nth_selection` names, and the
    /// cursor ends where `nth_cursor` says — so a whole run of calls, not
    /// just a single one, is pinned by the selection model.
    pub fn select_many(&mut self, count: usize) -> (picks: Vec<Option<String>>)
        requires
            old(self).wf(),
        ensures
            final(self).wf(),
            final(self).addresses() == old(self).addresses(),
            final(self).availability() == old(self).availability(),
            picks@.len() == count,
            forall|k: int|
                #![trigger picks@[k]]
                0 <= k < count ==> match nth_selection(
                    old(self).availability(),
                    old(self).cursor(),
                    k as nat,
                ) {
                    None => picks@[k] is None,
                    Some(j) => picks@[k] is Some && picks@[k]->0@ == old(self).addresses()[j],
                },
            final(self).cursor() == nth_cursor(
                old(self).availability(),
                old(self).cursor(),
                count as nat,
            ),
    {
        let ghost avail0 = old(self).availability();
        let ghost start0 = old(self).cursor();
        let mut picks: Vec<Option<String>> = Vec::new();
        let mut i: usize = 0;
        while i < count
            invariant
                self.wf(),
                self.addresses() == old(self).addresses(),
                self.availability() == avail0,
                avail0 == old(self).availability(),
                start0 == old(self).cursor(),
                old(self).wf(),
                i <= count,
                picks@.len() == i,
                self.cursor() == nth_cursor(avail0, start0, i as nat),
                forall|k: int|
                    #![trigger picks@[k]]
                    0 <= k < i ==> match nth_selection(avail0, start0, k as nat) {
                        None => picks@[k] is None,
                        Some(j) => picks@[k] is Some && picks@[k]->0@ == old(
                            self,
                        ).addresses()[j],
                    },
            decreases count - i,
        {
            proof {
                lemma_run_steps(avail0, start0, i as nat);
            }
            let pick = self.select_backend();
            picks.push(pick);
            i = i + 1;
        }
        picks
    }

    /// Builds the pool from the raw configured address list and the
    /// validation collaborator's verdict on each entry: entries judged
    /// invalid are dropped, in order; a list with no valid entry is a fatal
    /// configuration error.
    pub fn from_config(raw: Vec<String>, valid: Vec<bool>) -> (r: Result<RoundRobin, LbError>)
        requires
            raw@.len() == valid@.len(),
        ensures
            match r {
                Ok(pool) => {
                    &&& pool.wf()
                    &&& pool.addresses() == accepted_addresses(raw.deep_view(), valid@)
                    &&& pool.addresses().len() > 0
                    &&& pool.availability() == Seq::new(pool.addresses().len(), |i: int| false)
                    &&& pool.cursor() == 0
                },
                Err(e) => e == LbError::StartupConfig && accepted_addresses(
                    raw.deep_view(),
                    valid@,
                ).len() == 0,
            },
    {
        let mut kept: Vec<String> = Vec::new();
        let mut k: usize = 0;
        while k < raw.len()
            invariant
                k <= raw@.len(),
                raw@.len() == valid@.len(),
                kept.deep_view() == accepted_addresses(
                    raw.deep_view().subrange(0, k as int),
                    valid@.subrange(0, k as int),
                ),
            decreases raw@.len() - k,
        {
            proof {
                let pre = raw.deep_view().subrange(0, k as int);
                let cur = raw.deep_view().subrange(0, k + 1 as int);
                assert(cur.drop_last() =~= pre);
                assert(cur.last() == raw@[k as int]@);
                let vpre = valid@.subrange(0, k as int);
                let vcur = valid@.subrange(0, k + 1 as int);
                assert(vcur.drop_last() =~= vpre);
                assert(vcur.last() == valid@[k as int]);
            }
            if valid[k] {
                let address = raw[k].clone();
                kept.push(address);
                proof {
                    assert(kept.deep_view() =~= accepted_addresses(
                        raw.deep_view().subrange(0, k + 1 as int),
                        valid@.subrange(0, k + 1 as int),
                    ));
                }
            }
            k = k + 1;
        }
        proof {
            assert(raw.deep_view().subrange(0, raw@.len() as int) =~= raw.deep_view());
            assert(valid@.subrange(0, valid@.len() as int) =~= valid@);
        }
        if kept.len() == 0 {
            Err(LbError::StartupConfig)
        } else {
            Ok(RoundRobin::new(kept))
        }
    }
}

/// The index chosen by the k-th of a run of consecutive selections
/// (counting from zero) that starts with the cursor at `start`, the
/// availability unchanged throughout the run.
pub open spec fn nth_selection(avail: Seq<bool>, start: int, k: nat) -> Option<int>
    decreases k,
{
    let n = avail.len() as int;
    match selected_offset(avail, start) {
        None => None,
        Some(o) => {
            let j = wrap_index(start + o, n);
            if k == 0 {
                Some(j)
            } else {
                nth_selection(avail, wrap_index(j + 1, n), (k - 1) as nat)
            }
        },
    }
}

/// The cursor standing before the k-th selection of a run that starts at
/// `start` (counting from zero), the availability unchanged throughout: a
/// pick moves the cursor just past the picked backend, a selection that
/// finds nothing leaves it alone.
pub open spec fn nth_cursor(avail: Seq<bool>, start: int, k: nat) -> int
    decreases k,
{
    if k == 0 {
        start
    } else {
        let n = avail.len() as int;
        match selected_offset(avail, start) {
            None => start,
            Some(o) => nth_cursor(
                avail,
                wrap_index(wrap_index(start + o, n) + 1, n),
                (k - 1) as nat,
            ),
        }
    }
}

/// A run unfolds one call at a time: the k-th pick of a run is the pick of
/// a single selection made at the k-th cursor, and the k+1-st cursor is
/// where that single selection leaves it — the bridge between a sequence of
/// `select_backend` calls and `nth_selection`.
pub proof fn lemma_run_steps(avail: Seq<bool>, start: int, k: nat)
    requires
        0 <= start,
        avail.len() > 0 ==> start < avail.len(),
    ensures
        ({
            let n = avail.len() as int;
            let c = nth_cursor(avail, start, k);
            &&& 0 <= c
            &&& avail.len() > 0 ==> c < avail.len()
            &&& nth_selection(avail, start, k) == match selected_offset(avail, c) {
                None => None::<int>,
                Some(o) => Some(wrap_index(c + o, n)),
            }
            &&& nth_cursor(avail, start, (k + 1) as nat) == match selected_offset(avail, c) {
                None => c,
                Some(o) => wrap_index(wrap_index(c + o, n) + 1, n),
            }
        }),
    decreases k,
{
    let n = avail.len() as int;
    match selected_offset(avail, start) {
        None => {},
        Some(o) => {
            lemma_offset_scan(avail, start, 0);
            let start2 = wrap_index(wrap_index(start + o, n) + 1, n);
            if k > 0 {
                lemma_run_steps(avail, start2, (k - 1) as nat);
                assert(((k - 1) + 1) as nat == k);
            } else {
                assert(nth_cursor(avail, start2, 0nat) == start2);
            }
        },
    }
}

/// What the offset scan guarantees: a found offset is in range and
/// available, and nothing at an earlier offset (at or after `o`) is;
/// no found offset means nothing at or after `o` is available.
pub proof fn lemma_offset_scan(avail: Seq<bool>, start: int, o: int)
    requires
        0 <= start < avail.len(),
        0 <= o,
    ensures
        ({
            let n = avail.len() as int;
            match first_available_offset(avail, start, o) {
                Some(f) => {
                    &&& o <= f < n
                    &&& avail[wrap_index(start + f, n)]
                    &&& forall|m: int|
                        o <= m < f ==> !avail[#[trigger] wrap_index(start + m, n)]
                },
                None => forall|m: int|
                    o <= m < avail.len() as int ==> !avail[#[trigger] wrap_index(start + m, n)],
            }
        }),
    decreases avail.len() - o,
{
    let n = avail.len() as int;
    if o < n && !avail[wrap_index(start + o, n)] {
        lemma_offset_scan(avail, start, o + 1);
    }
}

/// Selection never picks an unavailable backend: whatever index any
/// selection of a consecutive run returns is an available one.
pub proof fn lemma_selection_skips_unavailable(avail: Seq<bool>, start: int, k: nat)
    requires
        0 <= start < avail.len(),
    ensures
        match nth_selection(avail, start, k) {
            Some(j) => 0 <= j < avail.len() && avail[j],
            None => true,
        },
    decreases k,
{
    let n = avail.len() as int;
    lemma_offset_scan(avail, start, 0);
    match selected_offset(avail, start) {
        None => {},
        Some(o) => {
            let j = wrap_index(start + o, n);
            if k > 0 {
                lemma_selection_skips_unavailable(avail, wrap_index(j + 1, n), (k - 1) as nat);
            }
        },
    }
}

/// Consecutive selections follow the rotation: the k+1-st pick of a run is
/// exactly the pick that a selection with the cursor just past the k-th
/// pick makes — so (with `lemma_offset_scan`) no available backend standing
/// between two consecutive picks is ever passed over.
pub proof fn lemma_selection_step(avail: Seq<bool>, start: int, k: nat)
    requires
        0 <= start < avail.len(),
        nth_selection(avail, start, k) is Some,
    ensures
        ({
            let n = avail.len() as int;
            let j = nth_selection(avail, start, k)->0;
            nth_selection(avail, start, (k + 1) as nat) == nth_selection(
                avail,
                wrap_index(j + 1, n),
                0,
            )
        }),
    decreases k,
{
    let n = avail.len() as int;
    let o = selected_offset(avail, start)->0;
    let j0 = wrap_index(start + o, n);
    lemma_offset_scan(avail, start, 0);
    if k > 0 {
        lemma_selection_step(avail, wrap_index(j0 + 1, n), (k - 1) as nat);
    }
}

/// Selection returns `None` exactly when no backend is available — whatever
/// the cursor says — and in particular on an empty pool.
pub proof fn lemma_none_iff_all_unavailable(avail: Seq<bool>, start: int)
    requires
        0 <= start,
        avail.len() > 0 ==> start < avail.len(),
    ensures
        selected_offset(avail, start) is None <==> (forall|i: int|
            0 <= i < avail.len() ==> !avail[i]),
{
    let n = avail.len() as int;
    if n == 0 {
        assert(selected_offset(avail, start) is None);
    } else {
        lemma_offset_scan(avail, start, 0);
        match first_available_offset(avail, start, 0) {
            Some(f) => {
                assert(avail[wrap_index(start + f, n)]);
            },
            None => {
                assert forall|i: int| 0 <= i < n implies !avail[i] by {
                    let m = if i >= start {
                        i - start
                    } else {
                        i + n - start
                    };
                    assert(wrap_index(start + m, n) == i);
                    assert(!avail[wrap_index(start + m, n)]);
                }
            },
        }
    }
}

/// Round-robin over an all-available pool: the k-th of a run of consecutive
/// selections picks index `(start + k) % n` — each backend exactly once per
/// lap, in configured order, wrapping back to the first after the last.
pub proof fn lemma_cycle_all_available(avail: Seq<bool>, start: int, k: nat)
    requires
        0 <= start < avail.len(),
        forall|i: int| 0 <= i < avail.len() ==> avail[i],
    ensures
        nth_selection(avail, start, k) == Some((start + k) % (avail.len() as int)),
    decreases k,
{
    let n = avail.len() as int;
    assert(wrap_index(start + 0, n) == start);
    assert(avail[start]);
    assert(selected_offset(avail, start) == Some(0int));
    if k == 0 {
        lemma_small_mod(start as nat, n as nat);
    } else {
        let start2 = wrap_index(start + 1, n);
        lemma_cycle_all_available(avail, start2, (k - 1) as nat);
        if start + 1 == n {
            lemma_mod_add_multiples_vanish(k - 1, n);
            assert((start2 + (k - 1)) % n == (start + k) % n);
        }
    }
}

/// A between-count is bounded by the interval, and is zero exactly when
/// nothing in the interval is available.
proof fn lemma_count_between_props(avail: Seq<bool>, c: int, d: int)
    requires
        0 <= c < avail.len(),
        0 <= d <= avail.len(),
    ensures
        0 <= count_available_between(avail, c, d) <= d,
        count_available_between(avail, c, d) == 0 <==> (forall|m: int|
            0 <= m < d ==> !avail[#[trigger] wrap_index(c + m, avail.len() as int)]),
    decreases d,
{
    if d > 0 {
        lemma_count_between_props(avail, c, d - 1);
    }
}

/// A between-count splits at any midpoint of its interval.
proof fn lemma_count_between_split(avail: Seq<bool>, c: int, d1: int, d: int)
    requires
        0 <= c < avail.len(),
        0 <= d1 <= d <= avail.len(),
    ensures
        count_available_between(avail, c, d) == count_available_between(avail, c, d1)
            + count_available_between(
            avail,
            wrap_index(c + d1, avail.len() as int),
            d - d1,
        ),
    decreases d,
{
    let n = avail.len() as int;
    let c2 = wrap_index(c + d1, n);
    if d > d1 {
        lemma_count_between_split(avail, c, d1, d - 1);
        assert(wrap_index(c2 + (d - 1 - d1), n) == wrap_index(c + d - 1, n));
    }
}

/// Availability counts concatenate.
proof fn lemma_count_available_concat(a: Seq<bool>, b: Seq<bool>)
    ensures
        count_available(a + b) == count_available(a) + count_available(b),
    decreases b.len(),
{
    if b.len() == 0 {
        assert(a + b =~= a);
    } else {
        assert((a + b).drop_last() =~= a + b.drop_last());
        lemma_count_available_concat(a, b.drop_last());
    }
}

/// A between-count over an interval that does not wrap is the availability
/// count of the corresponding slice.
proof fn lemma_count_between_no_wrap(avail: Seq<bool>, c: int, m: int)
    requires
        0 <= c,
        0 <= m,
        c + m <= avail.len(),
    ensures
        count_available_between(avail, c, m) == count_available(avail.subrange(c, c + m)),
    decreases m,
{
    let n = avail.len() as int;
    if m > 0 {
        lemma_count_between_no_wrap(avail, c, m - 1);
        assert(avail.subrange(c, c + m).drop_last() =~= avail.subrange(c, c + m - 1));
        assert(avail.subrange(c, c + m).last() == avail[c + m - 1]);
        assert(wrap_index(c + m - 1, n) == c + m - 1);
    }
}

/// One full lap of rotation order meets every backend once: the
/// between-count over a whole lap is the availability count, wherever the
/// lap starts.
proof fn lemma_count_between_full(avail: Seq<bool>, c: int)
    requires
        0 <= c < avail.len(),
    ensures
        count_available_between(avail, c, avail.len() as int) == count_available(avail),
{
    let n = avail.len() as int;
    lemma_count_between_split(avail, c, n - c, n);
    assert(wrap_index(c + (n - c), n) == 0);
    lemma_count_between_no_wrap(avail, c, n - c);
    lemma_count_between_no_wrap(avail, 0, c);
    lemma_count_available_concat(avail.subrange(0, c), avail.subrange(c, n));
    assert(avail.subrange(0, c) + avail.subrange(c, n) =~= avail);
}

/// The availability count is zero exactly when no backend is available.
proof fn lemma_count_available_zero(avail: Seq<bool>)
    ensures
        count_available(avail) == 0 <==> (forall|i: int|
            0 <= i < avail.len() ==> !(#[trigger] avail[i])),
        count_available(avail) >= 0,
    decreases avail.len(),
{
    if avail.len() > 0 {
        lemma_count_available_zero(avail.drop_last());
        assert(forall|i: int|
            0 <= i < avail.len() - 1 ==> avail.drop_last()[i] == avail[i]);
    }
}

/// Walking the rotation: when `t` backends are available strictly between
/// the cursor and an available backend `j`, the t-th selection of the run
/// picks exactly `j`.
proof fn lemma_walk_to(avail: Seq<bool>, c: int, j: int, t: nat)
    requires
        0 <= c < avail.len(),
        0 <= j < avail.len(),
        avail[j],
        t == count_available_between(avail, c, rotation_distance(c, j, avail.len() as int)),
    ensures
        nth_selection(avail, c, t) == Some(j),
    decreases t,
{
    let n = avail.len() as int;
    let d = rotation_distance(c, j, n);
    assert(0 <= d < n);
    assert(wrap_index(c + d, n) == j);
    lemma_offset_scan(avail, c, 0);
    lemma_count_between_props(avail, c, d);
    if selected_offset(avail, c) is None {
        assert(!avail[wrap_index(c + d, n)]);
        assert(false);
    }
    let o0 = selected_offset(avail, c)->0;
    assert(o0 <= d) by {
        if o0 > d {
            assert(!avail[wrap_index(c + d, n)]);
        }
    }
    let j0 = wrap_index(c + o0, n);
    if t == 0 {
        assert(forall|m: int| 0 <= m < d ==> !avail[#[trigger] wrap_index(c + m, n)]);
        assert(o0 == d) by {
            if o0 < d {
                assert(!avail[wrap_index(c + o0, n)]);
            }
        }
    } else {
        assert(o0 < d) by {
            if o0 == d {
                assert(forall|m: int| 0 <= m < d ==> !avail[#[trigger] wrap_index(c + m, n)]);
            }
        }
        let c2 = wrap_index(j0 + 1, n);
        assert(c2 == wrap_index(c + o0 + 1, n));
        let d2 = d - o0 - 1;
        lemma_count_between_split(avail, c, o0 + 1, d);
        lemma_count_between_props(avail, c, o0);
        assert(count_available_between(avail, c, o0) == 0);
        assert(count_available_between(avail, c, o0 + 1) == 1);
        assert(count_available_between(avail, c2, d2) == t - 1);
        assert(rotation_distance(c2, j, n) == d2);
        lemma_walk_to(avail, c2, j, (t - 1) as nat);
    }
}

/// Each available backend is picked exactly once per lap: an available `j`
/// is the pick at step `t` = (number of available backends strictly between
/// the cursor and `j` in rotation order), and `t` falls inside the lap.
/// Since a pick determines its step's result, two distinct available
/// backends are picked at two distinct steps of the lap.
pub proof fn lemma_each_available_picked_once_per_lap(avail: Seq<bool>, start: int, j: int)
    requires
        0 <= start < avail.len(),
        0 <= j < avail.len(),
        avail[j],
    ensures
        ({
            let t = count_available_between(
                avail,
                start,
                rotation_distance(start, j, avail.len() as int),
            );
            &&& 0 <= t < count_available(avail)
            &&& nth_selection(avail, start, t as nat) == Some(j)
        }),
{
    let n = avail.len() as int;
    let d = rotation_distance(start, j, n);
    let t = count_available_between(avail, start, d);
    lemma_count_between_props(avail, start, d);
    assert(wrap_index(start + d, n) == j);
    assert(count_available_between(avail, start, d + 1) == t + 1);
    lemma_count_between_split(avail, start, d + 1, n);
    lemma_count_between_props(avail, wrap_index(start + d + 1, n), n - d - 1);
    lemma_count_between_full(avail, start);
    lemma_walk_to(avail, start, j, t as nat);
}

/// Skipping never reorders: of two available backends, the one nearer the
/// cursor in rotation order is picked at an earlier step of the lap (the
/// steps being the ones `lemma_each_available_picked_once_per_lap` names),
/// so the relative order of the remaining backends is kept.
pub proof fn lemma_relative_order_kept(avail: Seq<bool>, start: int, j1: int, j2: int)
    requires
        0 <= start < avail.len(),
        0 <= j1 < avail.len(),
        0 <= j2 < avail.len(),
        avail[j1],
        avail[j2],
        rotation_distance(start, j1, avail.len() as int) < rotation_distance(
            start,
            j2,
            avail.len() as int,
        ),
    ensures
        count_available_between(avail, start, rotation_distance(start, j1, avail.len() as int))
            < count_available_between(
            avail,
            start,
            rotation_distance(start, j2, avail.len() as int),
        ),
{
    let n = avail.len() as int;
    let d1 = rotation_distance(start, j1, n);
    let d2 = rotation_distance(start, j2, n);
    assert(wrap_index(start + d1, n) == j1);
    assert(count_available_between(avail, start, d1 + 1) == count_available_between(
        avail,
        start,
        d1,
    ) + 1);
    lemma_count_between_split(avail, start, d1 + 1, d2);
    lemma_count_between_props(avail, wrap_index(start + d1 + 1, n), d2 - d1 - 1);
}

/// The selection cycle has length `count_available`: with at least one
/// backend available, the pick at step k + A of a run of consecutive
/// selections equals the pick at step k, where A is the number of available
/// backends — so the cycle shrinks to exactly the available backends,
/// skipping the unavailable ones.
pub proof fn lemma_cycle_length(avail: Seq<bool>, start: int, k: nat)
    requires
        0 <= start < avail.len(),
        count_available(avail) >= 1,
    ensures
        nth_selection(avail, start, (k + count_available(avail)) as nat) == nth_selection(
            avail,
            start,
            k,
        ),
    decreases k,
{
    let n = avail.len() as int;
    let a = count_available(avail);
    lemma_count_available_zero(avail);
    lemma_none_iff_all_unavailable(avail, start);
    assert(selected_offset(avail, start) is Some);
    let o0 = selected_offset(avail, start)->0;
    lemma_offset_scan(avail, start, 0);
    let j0 = wrap_index(start + o0, n);
    let c2 = wrap_index(j0 + 1, n);
    if k > 0 {
        lemma_cycle_length(avail, c2, (k - 1) as nat);
        assert(nth_selection(avail, start, (k + a) as nat) == nth_selection(
            avail,
            c2,
            ((k - 1) + a) as nat,
        ));
    } else {
        assert(nth_selection(avail, start, k) == Some(j0));
        assert(nth_selection(avail, start, a as nat) == nth_selection(
            avail,
            c2,
            (a - 1) as nat,
        ));
        lemma_count_between_full(avail, c2);
        assert(wrap_index(c2 + (n - 1), n) == j0);
        assert(count_available_between(avail, c2, n) == count_available_between(
            avail,
            c2,
            n - 1,
        ) + 1);
        assert(rotation_distance(c2, j0, n) == n - 1);
        lemma_walk_to(avail, c2, j0, (a - 1) as nat);
    }
}

/// Repeated identical probe outcomes are idempotent: recording the same
/// outcome a second time leaves exactly the availability the first
/// recording left.
pub proof fn lemma_probe_idempotent(avail: Seq<bool>, index: int, success: bool)
    requires
        0 <= index < avail.len(),
    ensures
        avail.update(index, success).update(index, success) == avail.update(index, success),
{
    assert(avail.update(index, success).update(index, success) =~= avail.update(
        index,
        success,
    ));
}

} // verus!
