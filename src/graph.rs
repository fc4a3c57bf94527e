use vstd::prelude::*;

use crate::error::HostError;
use crate::specifier::{joined_url, resolve, ModuleSpecifier};

verus! {

/// One static import declaration as the engine's parser reports it: the raw
/// reference text and the names imported from it.
#[derive(Debug, Clone, PartialEq, Eq)]
pub struct ImportRequest {
    pub raw: String,
    pub names: Vec<String>,
}

/// The import and export declarations of a freshly loaded module.
#[derive(Debug, Clone, PartialEq, Eq)]
pub struct ParsedModule {
    pub imports: Vec<ImportRequest>,
    pub exports: Vec<String>,
}

/// Lifecycle of a record during graph construction.
#[derive(Debug, Clone, Copy, PartialEq, Eq)]
pub enum ModuleState {
    /// Discovered, its load issued or about to be.
    Fetching,
    /// Loaded and its declarations recorded.
    Fetched,
}

/// One distinct module.  Import edge `k` pairs `requests[k]` (as written)
/// with the record at index `targets[k]` (as resolved).
pub struct ModuleRecord {
    pub specifier: ModuleSpecifier,
    pub state: ModuleState,
    pub source: String,
    pub requests: Vec<ImportRequest>,
    pub targets: Vec<usize>,
    pub exports: Vec<String>,
}

/// Every module discovered from the entry (always the record at index 0),
/// at most one record per canonical specifier.  Loads are issued in the order
/// records are discovered: records before `fetched` have been loaded, the
/// others wait for their load.
pub struct ModuleGraph {
    pub records: Vec<ModuleRecord>,
    pub fetched: usize,
}

/// The index of the entry module.
pub const ENTRY: usize = 0;

/// Whether `s` is what one of `imports` resolves to against `base`.
pub open spec fn requested_by(base: Seq<char>, imports: Seq<ImportRequest>, s: Seq<char>) -> bool {
    exists|k: int| 0 <= k < imports.len() && joined_url(base, #[trigger] imports[k].raw@) == Some(s)
}

impl ModuleGraph {
    /// The canonical specifiers of the records, in discovery order.
    pub open spec fn specs(&self) -> Seq<Seq<char>> {
        self.records@.map_values(|r: ModuleRecord| r.specifier@)
    }

    /// The record indices that module `i` imports, edge by edge.
    pub open spec fn deps(&self, i: int) -> Seq<usize> {
        self.records@[i].targets@
    }

    /// Structural validity: an entry exists, specifiers are distinct, every
    /// edge points at a record, and exactly the first `fetched` are loaded.
    pub open spec fn wf(&self) -> bool {
        &&& 1 <= self.records@.len()
        &&& self.fetched <= self.records@.len()
        &&& self.distinct_specs()
        &&& forall|i: int| 0 <= i < self.records@.len() ==> self.record_ok(i)
    }

    /// No two records share a canonical specifier.
    pub open spec fn distinct_specs(&self) -> bool {
        forall|i: int, j: int|
            0 <= i < self.records@.len() && 0 <= j < self.records@.len() && i != j
                ==> #[trigger] self.records@[i].specifier@ != #[trigger] self.records@[j].specifier@
    }

    /// Record `i` has one target per request, each naming a record, and is
    /// loaded exactly when it comes before `fetched`.
    pub open spec fn record_ok(&self, i: int) -> bool {
        &&& self.records@[i].targets@.len() == self.records@[i].requests@.len()
        &&& (self.records@[i].state == ModuleState::Fetched) == (i < self.fetched)
        &&& forall|k: int| 0 <= k < self.records@[i].targets@.len()
            ==> (#[trigger] self.records@[i].targets@[k] as int) < self.records@.len()
    }

    /// Whether every discovered module has been loaded.
    pub open spec fn complete(&self) -> bool {
        self.fetched == self.records@.len()
    }

    /// A graph holding only the entry module, waiting for its load.
    pub fn new(entry: ModuleSpecifier) -> (r: ModuleGraph)
        ensures
            r.wf(),
            r.specs() == seq![entry@],
            r.fetched == 0,
    {
        let mut records: Vec<ModuleRecord> = Vec::new();
        records.push(fresh_record(entry));
        let r = ModuleGraph { records, fetched: 0 };
        assert(r.specs() =~= seq![entry@]);
        r
    }

    /// The module whose load is to be issued next, if any remains.
    pub fn next_fetch(&self) -> (r: Option<usize>)
        requires
            self.wf(),
        ensures
            r == (if self.complete() { None } else { Some(self.fetched) }),
    {
        if self.fetched < self.records.len() {
            Some(self.fetched)
        } else {
            None
        }
    }

    /// The index of the record whose specifier is `s`, if there is one.
    pub fn index_of(&self, s: &ModuleSpecifier) -> (r: Option<usize>)
        requires
            self.wf(),
        ensures
            match r {
                Some(i) => i < self.records@.len() && self.specs()[i as int] == s@,
                None => !self.specs().contains(s@),
            },
    {
        let mut i: usize = 0;
        while i < self.records.len()
            invariant
                self.wf(),
                i <= self.records@.len(),
                forall|j: int| 0 <= j < i ==> self.specs()[j] != s@,
            decreases self.records@.len() - i,
        {
            if self.records[i].specifier.same_module(s) {
                return Some(i);
            }
            i = i + 1;
        }
        None
    }

    /// The record for `s`: the existing one, or a new one waiting for its load.
    fn intern(&mut self, s: ModuleSpecifier) -> (r: usize)
        requires
            old(self).wf(),
            old(self).records@.len() < usize::MAX,
        ensures
            final(self).wf(),
            final(self).fetched == old(self).fetched,
            r < final(self).records@.len(),
            final(self).specs()[r as int] == s@,
            old(self).specs().contains(s@) ==> final(self).records@ == old(self).records@,
            !old(self).specs().contains(s@) ==> {
                &&& r == old(self).records@.len()
                &&& final(self).records@.len() == old(self).records@.len() + 1
                &&& final(self).records@.subrange(0, r as int) == old(self).records@
                &&& final(self).records@[r as int].state == ModuleState::Fetching
                &&& final(self).records@[r as int].targets@.len() == 0
            },
    {
        match self.index_of(&s) {
            Some(i) => i,
            None => {
                let n = self.records.len();
                self.records.push(fresh_record(s));
                assert(self.records@.subrange(0, n as int) =~= old(self).records@);
                assert forall|i: int, j: int|
                    0 <= i < self.records@.len() && 0 <= j < self.records@.len() && i != j
                        implies #[trigger] self.records@[i].specifier@
                        != #[trigger] self.records@[j].specifier@ by {
                    if i == n as int {
                        assert(old(self).specs()[j] == self.records@[j].specifier@);
                    } else if j == n as int {
                        assert(old(self).specs()[i] == self.records@[i].specifier@);
                    }
                };
                assert forall|i: int| 0 <= i < self.records@.len() implies #[trigger] self.record_ok(i) by {
                    if i < n as int {
                        assert(self.records@[i] == old(self).records@[i]);
                        assert(old(self).record_ok(i));
                    }
                };
                n
            },
        }
    }
    /// Records the load of the next module (the one `next_fetch` named): its
    /// source and declarations are stored, each import is resolved against
    /// its specifier, and every specifier not yet in the graph gets a new
    /// record waiting for its load.  A specifier already present, whatever
    /// its state, only gains the edge, so no module is ever loaded twice.
    /// Fails with `InvalidSpecifier` on the first import that does not resolve.
    pub fn complete_fetch(&mut self, source: String, parsed: ParsedModule) -> (r: Result<(), HostError>)
        requires
            old(self).wf(),
            !old(self).complete(),
            old(self).records@.len() + parsed.imports@.len() < usize::MAX,
        ensures
            final(self).wf(),
            r is Ok <==> forall|k: int| 0 <= k < parsed.imports@.len()
                ==> (#[trigger] joined_url(old(self).specs()[old(self).fetched as int], parsed.imports@[k].raw@)) is Some,
            r is Err ==> exists|k: int| 0 <= k < parsed.imports@.len()
                && (#[trigger] joined_url(old(self).specs()[old(self).fetched as int], parsed.imports@[k].raw@)) is None
                && (r->Err_0 matches HostError::InvalidSpecifier { raw } && raw@ == parsed.imports@[k].raw@)
                && forall|i: int| 0 <= i < k
                    ==> (#[trigger] joined_url(old(self).specs()[old(self).fetched as int], parsed.imports@[i].raw@)) is Some,
            r is Ok ==> {
                let cur = old(self).fetched as int;
                let base = old(self).specs()[cur];
                &&& final(self).fetched == old(self).fetched + 1
                &&& final(self).specs().subrange(0, old(self).records@.len() as int) == old(self).specs()
                &&& forall|i: int| 0 <= i < old(self).records@.len() && i != cur
                    ==> #[trigger] final(self).records@[i] == old(self).records@[i]
                &&& final(self).records@[cur].source == source
                &&& final(self).records@[cur].requests@ == parsed.imports@
                &&& final(self).records@[cur].exports@ == parsed.exports@
                &&& forall|k: int| 0 <= k < parsed.imports@.len()
                    ==> joined_url(base, parsed.imports@[k].raw@)
                        == Some(#[trigger] final(self).specs()[final(self).deps(cur)[k] as int])
                &&& forall|j: int| old(self).records@.len() <= j < final(self).records@.len()
                    ==> requested_by(base, parsed.imports@, #[trigger] final(self).specs()[j])
            },
    {
        let cur = self.fetched;
        let base = self.records[cur].specifier.duplicate();
        let n = parsed.imports.len();
        let mut targets: Vec<usize> = Vec::new();
        let mut k: usize = 0;
        while k < n
            invariant
                self.wf(),
                self.fetched == cur,
                cur == old(self).fetched,
                cur < old(self).records@.len(),
                base@ == old(self).specs()[cur as int],
                n == parsed.imports@.len(),
                old(self).records@.len() + n < usize::MAX,
                k <= n,
                old(self).records@.len() <= self.records@.len() <= old(self).records@.len() + k,
                self.records@.subrange(0, old(self).records@.len() as int) == old(self).records@,
                targets@.len() == k,
                forall|j: int| 0 <= j < k ==> (#[trigger] targets@[j] as int) < self.records@.len()
                    && joined_url(base@, parsed.imports@[j].raw@) == Some(self.specs()[targets@[j] as int]),
                forall|j: int| old(self).records@.len() <= j < self.records@.len()
                    ==> exists|i: int| 0 <= i < k
                        && joined_url(base@, parsed.imports@[i].raw@) == Some(#[trigger] self.specs()[j]),
            decreases n - k,
        {
            let raw = parsed.imports[k].raw.as_str();
            match resolve(Some(&base), raw) {
                Ok(s) => {
                    let ghost before = self.records@;
                    let ghost before_specs = self.specs();
                    let t = self.intern(s);
                    targets.push(t);
                    proof {
                        assert(self.records@.subrange(0, before.len() as int) =~= before);
                        assert forall|j: int| 0 <= j < k + 1 implies (#[trigger] targets@[j] as int) < self.records@.len()
                            && joined_url(base@, parsed.imports@[j].raw@) == Some(self.specs()[targets@[j] as int]) by {
                            if j < k {
                                assert(before[targets@[j] as int] == self.records@[targets@[j] as int]);
                            }
                        };
                        assert forall|j: int| old(self).records@.len() <= j < self.records@.len()
                            implies exists|i: int| 0 <= i < k + 1
                                && joined_url(base@, parsed.imports@[i].raw@) == Some(#[trigger] self.specs()[j]) by {
                            if j < before.len() {
                                assert(before[j] == self.records@[j]);
                                assert(self.specs()[j] == before_specs[j]);
                                assert(exists|i: int| 0 <= i < k
                                    && joined_url(base@, parsed.imports@[i].raw@) == Some(#[trigger] before_specs[j]));
                                let i = choose|i: int| 0 <= i < k
                                    && joined_url(base@, parsed.imports@[i].raw@) == Some(#[trigger] before_specs[j]);
                                assert(0 <= i < k + 1);
                            } else {
                                assert(joined_url(base@, parsed.imports@[k as int].raw@) == Some(self.specs()[j]));
                            }
                        };
                        assert(self.records@.subrange(0, old(self).records@.len() as int) =~= old(self).records@);
                    }
                },
                Err(e) => {
                    let ghost kk = k as int;
                    assert(raw@ == parsed.imports@[kk].raw@);
                    assert(joined_url(old(self).specs()[old(self).fetched as int], parsed.imports@[kk].raw@) is None);
                    assert(e matches HostError::InvalidSpecifier { raw: t } && t@ == parsed.imports@[kk].raw@);
                    assert forall|i: int| 0 <= i < kk implies
                        (#[trigger] joined_url(old(self).specs()[old(self).fetched as int], parsed.imports@[i].raw@)) is Some by {
                        assert((targets@[i] as int) < self.records@.len());
                    };
                    return Err(e);
                },
            }
            k = k + 1;
        }
        assert forall|j: int| 0 <= j < n implies
            (#[trigger] joined_url(old(self).specs()[old(self).fetched as int], parsed.imports@[j].raw@)) is Some by {
            assert((targets@[j] as int) < self.records@.len());
        };
        let ParsedModule { imports, exports } = parsed;
        let loaded = ModuleRecord {
            specifier: base,
            state: ModuleState::Fetched,
            source,
            requests: imports,
            targets,
            exports,
        };
        let ghost before = self.records@;
        let ghost before_specs = self.specs();
        self.store_loaded(loaded);
        proof {
            assert(self.specs() =~= before_specs);
            assert(self.specs().subrange(0, old(self).records@.len() as int) =~= old(self).specs());
            assert forall|i: int| 0 <= i < old(self).records@.len() && i != cur implies
                #[trigger] self.records@[i] == old(self).records@[i] by {
                assert(before.subrange(0, old(self).records@.len() as int)[i] == before[i]);
            };
            assert forall|k: int| 0 <= k < n implies joined_url(old(self).specs()[cur as int], parsed.imports@[k].raw@)
                == Some(#[trigger] self.specs()[self.deps(cur as int)[k] as int]) by {
                assert(self.deps(cur as int)[k] == targets@[k]);
            };
            assert forall|j: int| old(self).records@.len() <= j < self.records@.len()
                implies requested_by(old(self).specs()[cur as int], parsed.imports@, #[trigger] self.specs()[j]) by {
                assert(self.specs()[j] == before_specs[j]);
                assert(old(self).records@.len() <= j < before.len());
                assert(exists|i: int| 0 <= i < k
                    && joined_url(base@, parsed.imports@[i].raw@) == Some(#[trigger] before_specs[j]));
                let i = choose|i: int| 0 <= i < k
                    && joined_url(base@, parsed.imports@[i].raw@) == Some(#[trigger] before_specs[j]);
                assert(joined_url(old(self).specs()[cur as int], parsed.imports@[i].raw@) == Some(self.specs()[j]));
            };
        }
        Ok(())
    }

    /// Adds the target of a dynamic import made by module `importer` while
    /// the loop runs: the reference is resolved against the importer, and the
    /// module is either already in the graph (its record is returned, nothing
    /// changes) or gets a new record waiting for its load.
    pub fn add_dynamic_import(&mut self, importer: usize, raw: &str) -> (r: Result<usize, HostError>)
        requires
            old(self).wf(),
            (importer as int) < old(self).records@.len(),
            old(self).records@.len() < usize::MAX,
        ensures
            final(self).wf(),
            final(self).fetched == old(self).fetched,
            match r {
                Ok(i) => {
                    let s = joined_url(old(self).specs()[importer as int], raw@);
                    &&& s is Some
                    &&& (i as int) < final(self).records@.len()
                    &&& Some(final(self).specs()[i as int]) == s
                    &&& old(self).specs().contains(s->Some_0) ==> final(self).records@ == old(self).records@
                    &&& !old(self).specs().contains(s->Some_0) ==> {
                        &&& i == old(self).records@.len()
                        &&& final(self).records@.subrange(0, i as int) == old(self).records@
                        &&& final(self).records@[i as int].state == ModuleState::Fetching
                    }
                },
                Err(e) => {
                    &&& joined_url(old(self).specs()[importer as int], raw@) is None
                    &&& e matches HostError::InvalidSpecifier { raw: t } && t@ == raw@
                    &&& final(self).records@ == old(self).records@
                },
            },
    {
        let base = self.records[importer].specifier.duplicate();
        match resolve(Some(&base), raw) {
            Ok(s) => Ok(self.intern(s)),
            Err(e) => Err(e),
        }
    }

    /// Installs the loaded record of the module that was waiting first.
    fn store_loaded(&mut self, rec: ModuleRecord)
        requires
            old(self).wf(),
            !old(self).complete(),
            rec.specifier@ == old(self).specs()[old(self).fetched as int],
            rec.state == ModuleState::Fetched,
            rec.targets@.len() == rec.requests@.len(),
            forall|k: int| 0 <= k < rec.targets@.len() ==> (#[trigger] rec.targets@[k] as int) < old(self).records@.len(),
        ensures
            final(self).wf(),
            final(self).records@ == old(self).records@.update(old(self).fetched as int, rec),
            final(self).fetched == old(self).fetched + 1,
    {
        let cur = self.fetched;
        assert(cur < self.records.len());
        let next = cur + 1;
        self.records.set(cur, rec);
        self.fetched = next;
        assert forall|i: int, j: int|
            0 <= i < self.records@.len() && 0 <= j < self.records@.len() && i != j
                implies #[trigger] self.records@[i].specifier@ != #[trigger] self.records@[j].specifier@ by {
            assert(old(self).specs()[i] == old(self).records@[i].specifier@);
            assert(old(self).specs()[j] == old(self).records@[j].specifier@);
            assert(self.records@[i].specifier@ == old(self).records@[i].specifier@);
            assert(self.records@[j].specifier@ == old(self).records@[j].specifier@);
        };
        assert forall|i: int| 0 <= i < self.records@.len() implies #[trigger] self.record_ok(i) by {
            if i != cur as int {
                assert(self.records@[i] == old(self).records@[i]);
                assert(old(self).record_ok(i));
            }
        };
    }

    /// The failure of the pending load of the next module: the run's graph
    /// construction fails, naming that module.
    pub fn fail_fetch(&self, cause: String) -> (r: HostError)
        requires
            self.wf(),
            !self.complete(),
        ensures
            r matches HostError::GraphError { specifier, cause: c }
                && specifier@ == self.specs()[self.fetched as int] && c == cause,
    {
        HostError::GraphError { specifier: self.records[self.fetched].specifier.href.clone(), cause }
    }
}

/// Loads are never duplicated: the modules loaded so far, being records
/// before `fetched`, carry pairwise distinct canonical specifiers, however
/// their references were spelled.
pub proof fn lemma_loads_distinct(g: ModuleGraph, i: int, j: int)
    requires
        g.wf(),
        0 <= i < g.fetched,
        0 <= j < g.fetched,
        i != j,
    ensures
        g.specs()[i] != g.specs()[j],
{
    assert(g.specs()[i] == g.records@[i].specifier@);
    assert(g.specs()[j] == g.records@[j].specifier@);
}

/// A record newly discovered: nothing loaded yet, no edges.
fn fresh_record(s: ModuleSpecifier) -> (r: ModuleRecord)
    ensures
        r.specifier == s,
        r.state == ModuleState::Fetching,
        r.requests@.len() == 0,
        r.targets@.len() == 0,
        r.exports@.len() == 0,
{
    ModuleRecord {
        specifier: s,
        state: ModuleState::Fetching,
        source: String::new(),
        requests: Vec::new(),
        targets: Vec::new(),
        exports: Vec::new(),
    }
}

} // verus!
