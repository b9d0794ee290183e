//! Criteria written as a script: the bookkeeping between the script and the
//! engine.
//!
//! A script names its queries inline, and short-circuit operators mean one
//! run need not reach every one of them. So a run answers the counts it has
//! grouped, records any query it has not, and the driver regroups and runs
//! again until a run finds nothing new. What is decided here is every piece
//! of that which is not the script runtime itself: what a count lookup
//! answers and records, and when the driver regroups, stops or gives up.

use vstd::prelude::*;
use crate::engine::{PathView, RunError};
use crate::text::{chars_of, push_str, str_eq, string_of, string_views};
use crate::zone::Zone;

verus! {

/// What went wrong with a script.
#[derive(Debug, Clone, PartialEq, Eq)]
pub enum JsError {
    /// The script would not load.
    Load(String),
    /// A criterion failed while it ran.
    Eval(String),
    /// The script registered no criterion at all.
    NoCriteria,
}

/// What a script failure says.
pub open spec fn js_error_text(e: JsError) -> Seq<char> {
    match e {
        JsError::Load(m) => "loading criteria: "@ + m@,
        JsError::Eval(m) => "evaluating criteria: "@ + m@,
        JsError::NoCriteria => "criteria file registered no criterion() calls"@,
    }
}

impl JsError {
    /// What [`js_error_text`] says.
    pub fn message(&self) -> (r: String)
        ensures
            r@ == js_error_text(*self),
    {
        let mut out: Vec<char> = Vec::new();
        match self {
            JsError::Load(m) => {
                push_str(&mut out, "loading criteria: ");
                push_str(&mut out, m.as_str());
            },
            JsError::Eval(m) => {
                push_str(&mut out, "evaluating criteria: ");
                push_str(&mut out, m.as_str());
            },
            JsError::NoCriteria => {
                push_str(&mut out, "criteria file registered no criterion() calls");
            },
        }
        proof {
            assert(out@ =~= js_error_text(*self));
        }
        string_of(out.as_slice())
    }
}

/// The counts a script reads for the path being evaluated, indexed
/// `[checkpoint][query]`, and the queries it asked for that are not grouped
/// yet.
#[derive(Debug, Clone)]
pub struct CountTable {
    /// The deepest checkpoint any criterion asked about.
    max_checkpoint: u32,
    queries: Vec<String>,
    counts: Vec<Vec<u32>>,
    discovered: Vec<String>,
}

/// The position of the first of `qs` equal to `q`.
pub open spec fn first_index(qs: Seq<Seq<char>>, q: Seq<char>) -> Option<int>
    decreases qs.len(),
{
    if qs.len() == 0 {
        None
    } else {
        match first_index(qs.drop_last(), q) {
            Some(i) => Some(i),
            None => if qs.last() == q {
                Some(qs.len() - 1)
            } else {
                None
            },
        }
    }
}

impl CountTable {
    pub closed spec fn max_of(self) -> u32 {
        self.max_checkpoint
    }

    pub closed spec fn queries_of(self) -> Seq<Seq<char>> {
        string_views(self.queries@)
    }

    pub closed spec fn counts_of(self) -> Seq<Seq<u32>> {
        self.counts@.map_values(|row: Vec<u32>| row@)
    }

    pub closed spec fn discovered_of(self) -> Seq<Seq<char>> {
        string_views(self.discovered@)
    }

    /// What a lookup of `query` at `checkpoint` answers: the count there
    /// when the query is grouped and the checkpoint and count exist, zero
    /// otherwise.
    pub open spec fn answer(self, checkpoint: int, query: Seq<char>) -> u32 {
        match first_index(self.queries_of(), query) {
            Some(i) => if 0 <= checkpoint < self.counts_of().len() && i < self.counts_of()[checkpoint].len() {
                self.counts_of()[checkpoint][i]
            } else {
                0
            },
            None => 0,
        }
    }

    /// An empty table: no queries, no counts, nothing discovered.
    pub fn new() -> (t: CountTable)
        ensures
            t.max_of() == 0,
            t.queries_of().len() == 0,
            t.counts_of().len() == 0,
            t.discovered_of().len() == 0,
    {
        CountTable { max_checkpoint: 0, queries: Vec::new(), counts: Vec::new(), discovered: Vec::new() }
    }

    /// Look a count up for a script.
    ///
    /// A query nobody has grouped by yet answers zero and is recorded, once,
    /// so the driver can regroup and run again; the answer this run gives is
    /// then discarded rather than trusted.
    pub fn count(&mut self, checkpoint: u32, query: String) -> (r: u32)
        ensures
            final(self).max_of() == if checkpoint > old(self).max_of() {
                checkpoint
            } else {
                old(self).max_of()
            },
            final(self).queries_of() == old(self).queries_of(),
            final(self).counts_of() == old(self).counts_of(),
            r == old(self).answer(checkpoint as int, query@),
            first_index(old(self).queries_of(), query@) is Some ==> final(self).discovered_of()
                == old(self).discovered_of(),
            first_index(old(self).queries_of(), query@) is None ==> final(self).discovered_of() == if old(
                self,
            ).discovered_of().contains(query@) {
                old(self).discovered_of()
            } else {
                old(self).discovered_of().push(query@)
            },
    {
        let found = self.lookup(checkpoint, &query);
        if checkpoint > self.max_checkpoint {
            self.max_checkpoint = checkpoint;
        }
        match found {
            Some(v) => v,
            None => {
                self.record(query);
                0
            },
        }
    }

    fn lookup(&self, checkpoint: u32, query: &String) -> (r: Option<u32>)
        ensures
            first_index(self.queries_of(), query@) is Some ==> r == Some(self.answer(checkpoint as int, query@)),
            first_index(self.queries_of(), query@) is None ==> r is None,
    {
        let ghost qs = string_views(self.queries@);
        let mut i: usize = 0;
        while i < self.queries.len()
            invariant
                i <= self.queries@.len(),
                qs == string_views(self.queries@),
                first_index(qs.subrange(0, i as int), query@) is None,
            decreases self.queries@.len() - i,
        {
            proof {
                assert(qs.subrange(0, i + 1).drop_last() =~= qs.subrange(0, i as int));
            }
            if str_eq(self.queries[i].as_str(), query.as_str()) {
                proof {
                    lemma_first_index_prefix(qs, query@, i as int + 1);
                }
                let c = checkpoint as usize;
                if c < self.counts.len() && i < self.counts[c].len() {
                    return Some(self.counts[c][i]);
                }
                return Some(0);
            }
            i += 1;
        }
        proof {
            assert(qs.subrange(0, qs.len() as int) =~= qs);
        }
        None
    }

    fn record(&mut self, query: String)
        ensures
            final(self).max_of() == old(self).max_of(),
            final(self).queries_of() == old(self).queries_of(),
            final(self).counts_of() == old(self).counts_of(),
            final(self).discovered_of() == if old(self).discovered_of().contains(query@) {
                old(self).discovered_of()
            } else {
                old(self).discovered_of().push(query@)
            },
    {
        let mut seen = false;
        let mut j: usize = 0;
        while j < self.discovered.len()
            invariant
                j <= self.discovered@.len(),
                seen == string_views(self.discovered@).subrange(0, j as int).contains(query@),
            decreases self.discovered@.len() - j,
        {
            let ghost ds = string_views(self.discovered@);
            let hit = str_eq(self.discovered[j].as_str(), query.as_str());
            proof {
                let a = ds.subrange(0, j as int);
                let b = ds.subrange(0, j + 1);
                assert(b =~= a.push(ds[j as int]));
                assert(ds[j as int] == self.discovered@[j as int]@);
                if a.contains(query@) {
                    let k = choose|k: int| 0 <= k < a.len() && a[k] == query@;
                    assert(b[k] == query@);
                }
                if hit {
                    assert(b[j as int] == query@);
                }
                if b.contains(query@) {
                    let k = choose|k: int| 0 <= k < b.len() && b[k] == query@;
                    if k < j {
                        assert(a[k] == query@);
                    }
                }
            }
            seen = seen || hit;
            j += 1;
        }
        proof {
            assert(string_views(self.discovered@).subrange(0, self.discovered@.len() as int) =~= string_views(
                self.discovered@,
            ));
        }
        if !seen {
            let ghost before = string_views(self.discovered@);
            self.discovered.push(query);
            proof {
                assert(string_views(self.discovered@) =~= before.push(query@));
            }
        }
    }

    /// The queries discovered since the last call, leaving none.
    pub fn take_discovered(&mut self) -> (r: Vec<String>)
        ensures
            string_views(r@) == old(self).discovered_of(),
            final(self).discovered_of().len() == 0,
            final(self).queries_of() == old(self).queries_of(),
            final(self).counts_of() == old(self).counts_of(),
            final(self).max_of() == old(self).max_of(),
    {
        let mut taken: Vec<String> = Vec::new();
        std::mem::swap(&mut taken, &mut self.discovered);
        taken
    }

    /// Tell the table which queries the grouping now covers; what was
    /// discovered against the old list no longer stands.
    pub fn set_queries(&mut self, queries: Vec<String>)
        ensures
            final(self).queries_of() == string_views(queries@),
            final(self).discovered_of().len() == 0,
            final(self).counts_of() == old(self).counts_of(),
            final(self).max_of() == old(self).max_of(),
    {
        self.queries = queries;
        self.discovered = Vec::new();
    }

    /// Set the counts of the path about to be evaluated.
    pub fn set_counts(&mut self, counts: Vec<Vec<u32>>)
        ensures
            final(self).counts_of() == counts@.map_values(|row: Vec<u32>| row@),
            final(self).queries_of() == old(self).queries_of(),
            final(self).discovered_of() == old(self).discovered_of(),
            final(self).max_of() == old(self).max_of(),
    {
        self.counts = counts;
    }

    /// Set the counts from a path: for every checkpoint, how many cards
    /// matching each grouped query are in hand.
    pub fn read_path(&mut self, view: &PathView<'_>)
        ensures
            final(self).counts_of().len() == view.history_of().len(),
            forall|c: int|
                0 <= c < view.history_of().len() ==> (#[trigger] final(self).counts_of()[c]).len()
                    == old(self).queries_of().len(),
            forall|c: int, q: int|
                0 <= c < view.history_of().len() && 0 <= q < old(self).queries_of().len()
                    ==> #[trigger] final(self).counts_of()[c][q] == view.count_spec(c, q, Zone::Hand),
            final(self).queries_of() == old(self).queries_of(),
            final(self).discovered_of() == old(self).discovered_of(),
            final(self).max_of() == old(self).max_of(),
    {
        let n = self.queries.len();
        let mut rows: Vec<Vec<u32>> = Vec::new();
        let mut c: usize = 0;
        while c < view.checkpoints()
            invariant
                c <= view.history_of().len(),
                n == self.queries@.len(),
                rows@.len() == c,
                forall|k: int| 0 <= k < c ==> (#[trigger] rows@[k])@.len() == n,
                forall|k: int, q: int|
                    0 <= k < c && 0 <= q < n ==> #[trigger] rows@[k]@[q] == view.count_spec(k, q, Zone::Hand),
            decreases view.history_of().len() - c,
        {
            let mut row: Vec<u32> = Vec::new();
            let mut q: usize = 0;
            while q < n
                invariant
                    q <= n,
                    row@.len() == q,
                    forall|j: int| 0 <= j < q ==> row@[j] == view.count_spec(c as int, j, Zone::Hand),
                decreases n - q,
            {
                row.push(view.count_in(c, q, Zone::Hand));
                q += 1;
            }
            rows.push(row);
            c += 1;
        }
        self.counts = rows;
        proof {
            assert forall|k: int| 0 <= k < rows@.len() implies #[trigger] self.counts_of()[k] == rows@[k]@ by {}
        }
    }

    /// The deepest checkpoint any criterion has asked about so far.
    pub fn max_checkpoint(&self) -> (r: u32)
        ensures
            r == self.max_of(),
    {
        self.max_checkpoint
    }

    /// The queries the table answers.
    pub fn queries(&self) -> (r: &Vec<String>)
        ensures
            string_views(r@) == self.queries_of(),
    {
        &self.queries
    }
}

proof fn lemma_first_index_prefix(qs: Seq<Seq<char>>, q: Seq<char>, n: int)
    requires
        0 < n <= qs.len(),
        first_index(qs.subrange(0, n - 1), q) is None,
        qs[n - 1] == q,
    ensures
        first_index(qs, q) == Some(n - 1),
    decreases qs.len(),
{
    if qs.len() > n {
        assert(qs.drop_last().subrange(0, n - 1) =~= qs.subrange(0, n - 1));
        lemma_first_index_prefix(qs.drop_last(), q, n);
    } else {
        assert(qs.drop_last() =~= qs.subrange(0, n - 1));
    }
}

/// How many runs a script may take to name all its queries: each run
/// strictly grows the set, so only something pathological reaches this.
pub const MAX_DISCOVERY_ROUNDS: usize = 16;

/// Why discovering a script's queries failed.
pub enum DiscoveryError<E> {
    Js(JsError),
    /// Building the grouping for the queries known so far failed.
    Build(E),
    Run(RunError<JsError>),
    /// The script kept naming new queries.
    DidNotSettle,
}

/// What the driver does after a run.
#[derive(Debug, Clone, PartialEq, Eq)]
pub enum Next {
    /// The run found new queries: regroup by all of these and run again.
    Regroup(Vec<String>),
    /// The run found nothing new, so its answer stands.
    Settled,
    /// The run found new queries and the rounds are spent.
    DidNotSettle,
}

/// The discovery driver: the queries known so far, and how many runs have
/// been made with them.
#[derive(Debug, Clone)]
pub struct Discovery {
    queries: Vec<String>,
    rounds: usize,
}

impl Discovery {
    pub closed spec fn queries_of(self) -> Seq<Seq<char>> {
        string_views(self.queries@)
    }

    pub closed spec fn rounds_of(self) -> nat {
        self.rounds as nat
    }

    /// Start from what a probe run with every count zero named.
    pub fn start(probed: Vec<String>) -> (d: Discovery)
        ensures
            d.queries_of() == string_views(probed@),
            d.rounds_of() == 0,
    {
        Discovery { queries: probed, rounds: 0 }
    }

    /// The queries to group by.
    pub fn queries(&self) -> (r: &Vec<String>)
        ensures
            string_views(r@) == self.queries_of(),
    {
        &self.queries
    }

    /// Decide after a run that found `newly_found`: nothing new settles it;
    /// otherwise the new queries join the known ones, and the driver
    /// regroups unless that was the last round it may take.
    pub fn after_round(&mut self, newly_found: Vec<String>) -> (r: Next)
        requires
            old(self).rounds_of() < MAX_DISCOVERY_ROUNDS,
        ensures
            final(self).rounds_of() == old(self).rounds_of() + 1,
            newly_found@.len() == 0 ==> r == Next::Settled && final(self).queries_of() == old(
                self,
            ).queries_of(),
            newly_found@.len() != 0 ==> final(self).queries_of() == old(self).queries_of()
                + string_views(newly_found@),
            newly_found@.len() != 0 && final(self).rounds_of() >= MAX_DISCOVERY_ROUNDS ==> r
                == Next::DidNotSettle,
            newly_found@.len() != 0 && final(self).rounds_of() < MAX_DISCOVERY_ROUNDS ==> (r matches Next::Regroup(
                qs,
            ) && string_views(qs@) == final(self).queries_of()),
    {
        self.rounds = self.rounds + 1;
        if newly_found.len() == 0 {
            return Next::Settled;
        }
        let ghost before = string_views(self.queries@);
        let ghost spent = self.rounds;
        let mut i: usize = 0;
        while i < newly_found.len()
            invariant
                self.rounds == spent,
                i <= newly_found@.len(),
                string_views(self.queries@) == before + string_views(newly_found@).subrange(0, i as int),
            decreases newly_found@.len() - i,
        {
            let ghost was = string_views(self.queries@);
            self.queries.push(newly_found[i].clone());
            proof {
                assert(string_views(newly_found@).subrange(0, i + 1) =~= string_views(newly_found@).subrange(
                    0,
                    i as int,
                ).push(newly_found@[i as int]@));
                assert(string_views(self.queries@) =~= was.push(newly_found@[i as int]@));
            }
            i += 1;
        }
        proof {
            assert(string_views(newly_found@).subrange(0, newly_found@.len() as int) =~= string_views(
                newly_found@,
            ));
        }
        if self.rounds >= MAX_DISCOVERY_ROUNDS {
            Next::DidNotSettle
        } else {
            let mut again: Vec<String> = Vec::new();
            let mut k: usize = 0;
            while k < self.queries.len()
                invariant
                    self.rounds == spent,
                    k <= self.queries@.len(),
                    string_views(again@) == string_views(self.queries@).subrange(0, k as int),
                decreases self.queries@.len() - k,
            {
                let ghost was = string_views(again@);
                again.push(self.queries[k].clone());
                proof {
                    assert(string_views(again@) =~= was.push(self.queries@[k as int]@));
                    assert(string_views(self.queries@).subrange(0, k + 1) =~= string_views(self.queries@).subrange(
                        0,
                        k as int,
                    ).push(self.queries@[k as int]@));
                }
                k += 1;
            }
            proof {
                assert(string_views(self.queries@).subrange(0, self.queries@.len() as int) =~= string_views(
                    self.queries@,
                ));
            }
            Next::Regroup(again)
        }
    }
}

} // verus!
