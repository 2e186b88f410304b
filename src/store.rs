//! Per-symbol sample logs with their trees, and the concurrent symbol store.
use vstd::prelude::*;
use dashmap::mapref::one::{Ref, RefMut};
use dashmap::DashMap;
use crate::error::{bad_request, is_bad_request, AppError, MSG_SYMBOL_CAP};
use crate::node::{
    canonical, canonicalize, is_nan_bits, is_negative_bits, is_sample, lemma_min_le_max,
    seq_max, seq_min, Moments,
};
use crate::segment_tree::{
    as_leaves, lemma_grown_at_least, lemma_present_prefix, SegmentTree,
};
use crate::service::{batch_problem, check_batch, has_negative, pow10, MAX_EXPONENT, MIN_EXPONENT};

verus! {

/// Leaves a symbol's tree starts with; it doubles as the log grows.
pub const STARTING_CAPACITY: usize = 65536;

/// Most distinct symbols a store tracks.
pub const MAX_SYMBOLS: usize = 10;

/// Most samples kept per symbol; later samples are dropped.
pub const MAX_SAMPLES: usize = 100_000_000;

#[verifier::external_type_specification]
#[verifier::external_body]
#[verifier::reject_recursive_types(K)]
#[verifier::reject_recursive_types(V)]
#[verifier::reject_recursive_types(S)]
pub struct ExDashMap<K, V, S>(DashMap<K, V, S>);

#[verifier::external_type_specification]
#[verifier::external_body]
#[verifier::reject_recursive_types(K)]
#[verifier::reject_recursive_types(V)]
pub struct ExRef<'a, K, V>(Ref<'a, K, V>);

#[verifier::external_type_specification]
#[verifier::external_body]
#[verifier::reject_recursive_types(K)]
#[verifier::reject_recursive_types(V)]
pub struct ExRefMut<'a, K, V>(RefMut<'a, K, V>);

/// Relies on dashmap's `Ref::value`: the value the read guard holds.
pub assume_specification<'a, 'b, K: Eq + std::hash::Hash, V>[ Ref::<'a, K, V>::value ](
    r: &'b Ref<'a, K, V>,
) -> &'b V;

/// Relies on dashmap's `RefMut::value_mut`: the value the write guard holds.
pub assume_specification<'a, 'b, K: Eq + std::hash::Hash, V>[ RefMut::<'a, K, V>::value_mut ](
    r: &'b mut RefMut<'a, K, V>,
) -> &'b mut V;

/// Relies on `DashMap::new`: a map with no entries.
#[verifier::external_body]
fn empty_map<M: Moments>() -> DashMap<String, SymbolData<M>> {
    DashMap::new()
}

/// Relies on `DashMap::contains_key`: whether `key` was present when asked.
/// Other threads may change the map, so nothing is stated of the result.
#[verifier::external_body]
fn map_contains<M: Moments>(map: &DashMap<String, SymbolData<M>>, key: &str) -> bool {
    map.contains_key(key)
}

/// Relies on `DashMap::len`: the number of entries when asked.
#[verifier::external_body]
fn map_len<M: Moments>(map: &DashMap<String, SymbolData<M>>) -> usize {
    map.len()
}

/// Relies on `DashMap::entry` and `Entry::or_insert_with`: the entry of `key`
/// under its shard's write lock, created by `SymbolData::new` where absent.
#[verifier::external_body]
fn entry_or_new<'a, M: Moments>(map: &'a DashMap<String, SymbolData<M>>, key: &str) -> RefMut<
    'a,
    String,
    SymbolData<M>,
> {
    map.entry(key.to_string()).or_insert_with(SymbolData::new)
}

/// Relies on `DashMap::get`: the entry of `key` under its shard's read lock,
/// if present.
#[verifier::external_body]
fn map_get<'a, M: Moments>(map: &'a DashMap<String, SymbolData<M>>, key: &str) -> Option<
    Ref<'a, String, SymbolData<M>>,
> {
    map.get(key)
}

/// Statistics of the most recent samples of one symbol. `avg` and `var`
/// derive from `moments` and `count`.
#[derive(Debug)]
pub struct SymbolStats<M> {
    pub min: u64,
    pub max: u64,
    pub last: u64,
    pub count: u64,
    pub moments: M,
}

/// The last `min(window_size, log.len())` samples of `log`.
pub open spec fn window(log: Seq<u64>, window_size: int) -> Seq<u64> {
    let w = if window_size < log.len() {
        window_size
    } else {
        log.len() as int
    };
    log.subrange(log.len() - w, log.len() as int)
}

/// `r` is what a query of `window_size` samples answers on the log `log`:
/// `NotEnoughData` where there is nothing to summarize, else the count,
/// minimum and maximum of the window and the last sample.
pub open spec fn stats_outcome<M>(
    r: Result<SymbolStats<M>, AppError>,
    log: Seq<u64>,
    window_size: int,
) -> bool {
    if log.len() == 0 || window_size == 0 {
        r is Err && r->Err_0 is NotEnoughData
    } else {
        &&& r is Ok
        &&& r->Ok_0.count == window(log, window_size).len()
        &&& r->Ok_0.min == seq_min(window(log, window_size))
        &&& r->Ok_0.max == seq_max(window(log, window_size))
        &&& r->Ok_0.last == log.last()
    }
}

/// `log` after appending `batch`, keeping at most `MAX_SAMPLES` samples.
pub open spec fn appended(log: Seq<u64>, batch: Seq<u64>) -> Seq<u64> {
    let room = MAX_SAMPLES - log.len();
    if batch.len() <= room {
        log + batch
    } else {
        log + batch.take(room)
    }
}

/// The sample log of one symbol and the tree over it.
pub struct SymbolData<M: Moments> {
    values: Vec<u64>,
    tree: SegmentTree<M>,
}

impl<M: Moments> View for SymbolData<M> {
    type V = Seq<u64>;

    closed spec fn view(&self) -> Seq<u64> {
        self.values@
    }
}

proof fn lemma_appended_step(log: Seq<u64>, b: Seq<u64>, x: u64)
    requires
        log.len() <= MAX_SAMPLES,
    ensures
        appended(log, b).len() <= MAX_SAMPLES,
        appended(log, b.push(x)) == (if appended(log, b).len() < MAX_SAMPLES {
            appended(log, b).push(x)
        } else {
            appended(log, b)
        }),
{
    let room = MAX_SAMPLES - log.len();
    if b.len() < room {
        assert(log + b.push(x) =~= (log + b).push(x));
    } else {
        assert(b.push(x).take(room) =~= b.take(room));
        if b.len() == room {
            assert(b.take(room) =~= b);
        }
    }
}

impl<M: Moments> SymbolData<M> {
    /// The tree always holds exactly the sample log, whose samples are all
    /// non-negative.
    #[verifier::type_invariant]
    spec fn inv(self) -> bool {
        &&& self.tree.wf()
        &&& self.tree@ == as_leaves(self.values@, self.tree.spec_capacity())
        &&& self.values@.len() <= self.tree.spec_capacity()
        &&& self.values@.len() <= MAX_SAMPLES
        &&& forall|i: int| 0 <= i < self.values@.len() ==> is_sample(#[trigger] self.values@[i])
    }

    /// An empty log with a tree of `STARTING_CAPACITY` leaves.
    pub fn new() -> (r: Self)
        ensures
            r@ == Seq::<u64>::empty(),
    {
        let values: Vec<u64> = Vec::new();
        let tree = SegmentTree::new(STARTING_CAPACITY);
        proof {
            tree.lemma_wf();
        }
        SymbolData { values, tree }
    }

    /// A small empty value that stands in while another is taken apart.
    fn placeholder() -> (r: Self) {
        let values: Vec<u64> = Vec::new();
        let tree = SegmentTree::new(0);
        proof {
            tree.lemma_wf();
        }
        SymbolData { values, tree }
    }

    /// Appends the samples in order, each to the log and then to the tree;
    /// once the log holds `MAX_SAMPLES` samples the rest are dropped.
    pub fn append_batch(&mut self, batch: &[u64])
        requires
            forall|i: int| 0 <= i < batch@.len() ==> is_sample(#[trigger] batch@[i]),
        ensures
            final(self)@ == appended(old(self)@, batch@),
    {
        proof {
            use_type_invariant(&*self);
        }
        let ghost start = self@;
        let mut data = Self::placeholder();
        core::mem::swap(self, &mut data);
        proof {
            use_type_invariant(&data);
        }
        let SymbolData { mut values, mut tree } = data;
        let n = batch.len();
        let mut i: usize = 0;
        proof {
            assert(batch@.take(0) =~= Seq::<u64>::empty());
            assert(start + Seq::<u64>::empty() =~= start);
        }
        while i < n
            invariant
                n == batch@.len(),
                i <= n,
                forall|j: int| 0 <= j < batch@.len() ==> is_sample(#[trigger] batch@[j]),
                start.len() <= MAX_SAMPLES,
                tree.wf(),
                tree@ == as_leaves(values@, tree.spec_capacity()),
                values@.len() <= tree.spec_capacity(),
                values@ == appended(start, batch@.take(i as int)),
                values@.len() <= MAX_SAMPLES,
                forall|j: int| 0 <= j < values@.len() ==> is_sample(#[trigger] values@[j]),
            decreases n - i,
        {
            proof {
                lemma_appended_step(start, batch@.take(i as int), batch@[i as int]);
                assert(batch@.take(i + 1) =~= batch@.take(i as int).push(batch@[i as int]));
            }
            if values.len() < MAX_SAMPLES {
                let v = batch[i];
                values.push(v);
                let index = values.len() - 1;
                let ghost c0 = tree.spec_capacity();
                proof {
                    tree.lemma_wf();
                    lemma_grown_at_least(c0, index + 1);
                }
                tree.update(index, v, values.as_slice());
                proof {
                    assert(tree@ =~= as_leaves(values@, tree.spec_capacity()));
                }
            }
            i = i + 1;
        }
        proof {
            assert(batch@.take(n as int) =~= batch@);
        }
        *self = SymbolData { values, tree };
    }

    /// Statistics of the last `min(window_size, N)` samples of a log of `N`.
    pub fn stats(&self, window_size: usize) -> (r: Result<SymbolStats<M>, AppError>)
        ensures
            stats_outcome(r, self@, window_size as int),
            r is Ok ==> r->Ok_0.min <= r->Ok_0.max,
    {
        proof {
            use_type_invariant(self);
            self.tree.lemma_wf();
        }
        let n = self.values.len();
        if n == 0 {
            return Err(AppError::NotEnoughData);
        }
        let actual = if window_size < n {
            window_size
        } else {
            n
        };
        if actual == 0 {
            return Err(AppError::NotEnoughData);
        }
        let start = n - actual;
        let node = self.tree.query(start, n - 1);
        proof {
            lemma_present_prefix(self.values@, self.tree.spec_capacity(), start as int, n as int);
            assert(self.values@.subrange(start as int, n as int) =~= window(
                self@,
                window_size as int,
            ));
        }
        if node.count == 0 {
            return Err(AppError::NotEnoughData);
        }
        proof {
            lemma_min_le_max(window(self@, window_size as int));
        }
        Ok(
            SymbolStats {
                min: node.min,
                max: node.max,
                last: self.values[n - 1],
                count: node.count,
                moments: node.moments,
            },
        )
    }
}

/// The stored form of a batch that passed the batch rules.
pub fn to_samples(values: &[u64]) -> (r: Vec<u64>)
    requires
        forall|i: int|
            0 <= i < values@.len() ==> !is_negative_bits(#[trigger] values@[i]) && !is_nan_bits(
                values@[i],
            ),
    ensures
        r@.len() == values@.len(),
        forall|i: int| 0 <= i < values@.len() ==> #[trigger] r@[i] == canonical(values@[i]),
        forall|i: int| 0 <= i < values@.len() ==> is_sample(#[trigger] r@[i]),
{
    let mut r: Vec<u64> = Vec::new();
    let mut i: usize = 0;
    while i < values.len()
        invariant
            i <= values@.len(),
            r@.len() == i,
            forall|j: int|
                0 <= j < values@.len() ==> !is_negative_bits(#[trigger] values@[j])
                    && !is_nan_bits(values@[j]),
            forall|j: int| 0 <= j < i ==> #[trigger] r@[j] == canonical(values@[j]),
            forall|j: int| 0 <= j < i ==> is_sample(#[trigger] r@[j]),
        decreases values@.len() - i,
    {
        r.push(canonicalize(values[i]));
        i = i + 1;
    }
    r
}

/// All symbols' data, shared between request handlers. Each symbol's log and
/// tree sit under one lock; distinct symbols do not contend.
#[verifier::reject_recursive_types(M)]
pub struct Store<M: Moments> {
    symbols: DashMap<String, SymbolData<M>>,
}

impl<M: Moments> Store<M> {
    pub fn new() -> (r: Self) {
        Store { symbols: empty_map() }
    }

    /// Decides the batch by `admission` on whether the map holds the symbol
    /// and how many symbols it holds, then appends the batch to the symbol's
    /// log, creating it on first use. The whole batch is applied under the
    /// symbol's write lock. Other threads may change the map between these
    /// steps, so the contract states only what holds whatever they do.
    pub fn add_batch(&self, symbol: &str, batch_values: &[u64]) -> (r: Result<(), AppError>)
        requires
            forall|i: int| 0 <= i < batch_values@.len() ==> !is_nan_bits(#[trigger] batch_values@[i]),
        ensures
            batch_problem(batch_values@) matches Some(msg) ==> r is Err && is_bad_request(
                r->Err_0,
                msg,
            ),
            batch_problem(batch_values@) is None ==> r is Ok || (r is Err && is_bad_request(
                r->Err_0,
                MSG_SYMBOL_CAP@,
            )),
    {
        let present = map_contains(&self.symbols, symbol);
        let n_symbols = map_len(&self.symbols);
        match admission(batch_values, present, n_symbols) {
            Err(e) => {
                return Err(e);
            },
            Ok(()) => {},
        }
        proof {
            assert forall|i: int| 0 <= i < batch_values@.len() implies !is_negative_bits(
                #[trigger] batch_values@[i],
            ) by {
                if is_negative_bits(batch_values@[i]) {
                    assert(has_negative(batch_values@));
                }
            }
        }
        let samples = to_samples(batch_values);
        let mut entry = entry_or_new(&self.symbols, symbol);
        let data = entry.value_mut();
        data.append_batch(samples.as_slice());
        Ok(())
    }

    /// Statistics of the last `min(window_size, N)` samples of `symbol`.
    pub fn get_stats(&self, symbol: &str, window_size: usize) -> (r: Result<
        SymbolStats<M>,
        AppError,
    >)
        ensures
            r matches Err(AppError::SymbolNotFound(s)) ==> s@ == symbol@,
            !(r matches Err(AppError::SymbolNotFound(_))) ==> exists|log: Seq<u64>|
                stats_outcome(r, log, window_size as int),
    {
        match map_get(&self.symbols, symbol) {
            None => stats_for(symbol, None, window_size),
            Some(guard) => {
                let data = guard.value();
                let r = stats_for(symbol, Some(data), window_size);
                assert(stats_outcome(r, data@, window_size as int));
                r
            },
        }
    }
}

/// Whether a batch for a symbol may be stored: the symbol is already held,
/// or fewer than `MAX_SYMBOLS` symbols are.
pub fn symbol_admitted(present: bool, n_symbols: usize) -> (r: bool)
    ensures
        r == (present || n_symbols < MAX_SYMBOLS),
{
    present || n_symbols < MAX_SYMBOLS
}

/// The answer to a batch for a symbol, given whether the store holds the
/// symbol and how many symbols it holds: the batch rules' error first, then
/// the symbol-cap error when the symbol is not admitted, else `Ok`.
pub fn admission(values: &[u64], present: bool, n_symbols: usize) -> (r: Result<(), AppError>)
    ensures
        batch_problem(values@) matches Some(msg) ==> r is Err && is_bad_request(r->Err_0, msg),
        batch_problem(values@) is None && !(present || n_symbols < MAX_SYMBOLS) ==> r is Err
            && is_bad_request(r->Err_0, MSG_SYMBOL_CAP@),
        batch_problem(values@) is None && (present || n_symbols < MAX_SYMBOLS) ==> r is Ok,
{
    match check_batch(values) {
        Err(e) => Err(e),
        Ok(()) => {
            if symbol_admitted(present, n_symbols) {
                Ok(())
            } else {
                Err(bad_request(MSG_SYMBOL_CAP))
            }
        },
    }
}

/// The answer to a query for `symbol`, given what the store holds under it:
/// `SymbolNotFound(symbol)` for nothing, else the statistics of that log.
pub fn stats_for<M: Moments>(symbol: &str, data: Option<&SymbolData<M>>, window_size: usize) -> (r:
    Result<SymbolStats<M>, AppError>)
    ensures
        data is None ==> (r matches Err(AppError::SymbolNotFound(s)) && s@ == symbol@),
        data matches Some(d) ==> stats_outcome(r, d@, window_size as int),
{
    match data {
        None => Err(AppError::SymbolNotFound(symbol.to_owned())),
        Some(d) => d.stats(window_size),
    }
}

/// Ingesting a flat sequence as two batches or as one leaves the same log,
/// so queries of the same window afterwards agree on whether they succeed
/// and on count, minimum, maximum and last sample.
pub proof fn lemma_batches_concat<M>(
    log: Seq<u64>,
    b1: Seq<u64>,
    b2: Seq<u64>,
    window_size: int,
    split: Result<SymbolStats<M>, AppError>,
    whole: Result<SymbolStats<M>, AppError>,
)
    requires
        log.len() <= MAX_SAMPLES,
        stats_outcome(split, appended(appended(log, b1), b2), window_size),
        stats_outcome(whole, appended(log, b1 + b2), window_size),
    ensures
        appended(appended(log, b1), b2) == appended(log, b1 + b2),
        split is Ok <==> whole is Ok,
        split is Ok ==> split->Ok_0.count == whole->Ok_0.count && split->Ok_0.min
            == whole->Ok_0.min && split->Ok_0.max == whole->Ok_0.max && split->Ok_0.last
            == whole->Ok_0.last,
{
    let room = MAX_SAMPLES - log.len();
    if b1.len() >= room {
        assert((b1 + b2).take(room) =~= b1.take(room));
        if b1.len() == room {
            assert(b1.take(room) =~= b1);
        }
        assert(b2.take(0) =~= Seq::<u64>::empty());
        assert(appended(log, b1) + Seq::<u64>::empty() =~= appended(log, b1));
    } else {
        let room2 = room - b1.len();
        if b2.len() <= room2 {
            assert(log + b1 + b2 =~= log + (b1 + b2));
        } else {
            assert((b1 + b2).take(room) =~= b1 + b2.take(room2));
            assert(log + b1 + b2.take(room2) =~= log + (b1 + b2.take(room2)));
        }
    }
}

/// A query of `10^k` samples, for `k` in `1..=8`, on a log holding at least
/// that many, succeeds and reports exactly the count, minimum and maximum of
/// the last `10^k` samples and the last sample.
pub proof fn lemma_exponent_window<M>(
    log: Seq<u64>,
    k: nat,
    r: Result<SymbolStats<M>, AppError>,
)
    requires
        MIN_EXPONENT <= k <= MAX_EXPONENT,
        log.len() >= pow10(k),
        stats_outcome(r, log, pow10(k) as int),
    ensures
        r is Ok,
        r->Ok_0.count == pow10(k),
        r->Ok_0.min == seq_min(log.subrange(log.len() - pow10(k), log.len() as int)),
        r->Ok_0.max == seq_max(log.subrange(log.len() - pow10(k), log.len() as int)),
        r->Ok_0.last == log[log.len() - 1],
{
    assert(pow10(k) > 0) by {
        lemma_pow10_positive(k);
    }
}

proof fn lemma_pow10_positive(k: nat)
    ensures
        pow10(k) > 0,
    decreases k,
{
    if k > 0 {
        lemma_pow10_positive((k - 1) as nat);
    }
}

/// A query whose window is at least the log's length summarizes the whole
/// log.
pub proof fn lemma_window_beyond_log<M>(
    log: Seq<u64>,
    window_size: int,
    r: Result<SymbolStats<M>, AppError>,
)
    requires
        log.len() > 0,
        window_size >= log.len(),
        stats_outcome(r, log, window_size),
    ensures
        r is Ok,
        r->Ok_0.count == log.len(),
        r->Ok_0.min == seq_min(log),
        r->Ok_0.max == seq_max(log),
        r->Ok_0.last == log.last(),
{
    assert(window(log, window_size) =~= log);
}

} // verus!
