//! The per-remote fetch strategy: try the in-process fetch first, fall
//! back to the external, credential-capable command when it fails, and
//! keep the three possible outcomes distinguishable.  One remote's failure
//! never stops the rest of the batch: every remote gets its own recorded
//! outcome.

use vstd::prelude::*;

use crate::lines::lemma_deep_view_chars;

verus! {

broadcast use lemma_deep_view_chars;

/// How one remote's fetch ended.
#[derive(Clone, Copy, PartialEq, Eq, Structural, Debug)]
pub enum FetchOutcome {
    /// The in-process fetch succeeded, without credentials.
    Direct,
    /// The in-process fetch failed; the external command succeeded.
    ViaFallback,
    /// Both attempts failed.  `command_started` tells whether the external
    /// command could be run at all.
    Failed { command_started: bool },
}

/// What happened when the external fallback command was run.
#[derive(Clone, Copy, PartialEq, Eq, Structural, Debug)]
pub enum FallbackRun {
    /// The command could not be started.
    SpawnFailed,
    /// The command ran to completion with the given exit status.
    Completed { exit_ok: bool },
}

/// The outcome reported for one remote, given whether the direct fetch
/// succeeded and, if it did not, how the fallback went.
pub open spec fn spec_outcome(direct_ok: bool, fallback: Option<FallbackRun>) -> FetchOutcome {
    if direct_ok {
        FetchOutcome::Direct
    } else {
        match fallback {
            Option::None => (FetchOutcome::Failed { command_started: false }),
            Option::Some(FallbackRun::SpawnFailed) => (FetchOutcome::Failed {
                command_started: false,
            }),
            Option::Some(FallbackRun::Completed { exit_ok }) => if exit_ok {
                FetchOutcome::ViaFallback
            } else {
                (FetchOutcome::Failed { command_started: true })
            },
        }
    }
}

/// The external fallback command must run exactly when the direct fetch
/// attempt failed.
pub fn needs_fallback(direct_ok: bool) -> (r: bool)
    ensures
        r == !direct_ok,
{
    !direct_ok
}

/// Classify one remote's fetch.  The fallback is consulted — and must have
/// been run — exactly when the direct fetch failed.
pub fn classify_fetch(direct_ok: bool, fallback: Option<FallbackRun>) -> (r: FetchOutcome)
    requires
        direct_ok <==> fallback is None,
    ensures
        r == spec_outcome(direct_ok, fallback),
{
    if direct_ok {
        FetchOutcome::Direct
    } else {
        match fallback {
            Option::None => FetchOutcome::Failed { command_started: false },
            Option::Some(FallbackRun::SpawnFailed) => FetchOutcome::Failed {
                command_started: false,
            },
            Option::Some(FallbackRun::Completed { exit_ok }) => {
                if exit_ok {
                    FetchOutcome::ViaFallback
                } else {
                    FetchOutcome::Failed { command_started: true }
                }
            },
        }
    }
}

/// Law: when the direct fetch succeeds the outcome is `Direct` and the
/// fallback plays no part; when it fails, the fallback runs and its own
/// result alone — not the original failure — determines the outcome.
pub proof fn lemma_fallback_decides(run: FallbackRun)
    ensures
        spec_outcome(true, None::<FallbackRun>) == FetchOutcome::Direct,
        run == (FallbackRun::Completed { exit_ok: true }) ==> spec_outcome(false, Some(run))
            == FetchOutcome::ViaFallback,
        run == (FallbackRun::Completed { exit_ok: false }) ==> spec_outcome(false, Some(run))
            == (FetchOutcome::Failed { command_started: true }),
        run == FallbackRun::SpawnFailed ==> spec_outcome(false, Some(run)) == (FetchOutcome::Failed {
            command_started: false,
        }),
{
}

/// One remote with its reported outcome.
pub struct RemoteFetch {
    pub remote: Vec<char>,
    pub outcome: FetchOutcome,
}

/// The per-remote outcomes of one fetch pass, in the order the remotes
/// were processed.  Recording never drops or rewrites earlier entries, so
/// one remote's failure cannot hide another's outcome.
pub struct FetchReport {
    items: Vec<RemoteFetch>,
}

impl FetchReport {
    pub closed spec fn outcomes(self) -> Seq<(Seq<char>, FetchOutcome)> {
        Seq::new(self.items@.len(), |i: int| (self.items@[i].remote@, self.items@[i].outcome))
    }

    pub fn new() -> (r: FetchReport)
        ensures
            r.outcomes() == Seq::<(Seq<char>, FetchOutcome)>::empty(),
    {
        let r = FetchReport { items: Vec::new() };
        proof {
            assert(r.outcomes() =~= Seq::<(Seq<char>, FetchOutcome)>::empty());
        }
        r
    }

    /// Record one remote's result.  The fallback must have been run exactly
    /// when the direct fetch failed.
    pub fn record(&mut self, remote: Vec<char>, direct_ok: bool, fallback: Option<FallbackRun>)
        requires
            direct_ok <==> fallback is None,
        ensures
            final(self).outcomes() == old(self).outcomes().push(
                (remote@, spec_outcome(direct_ok, fallback)),
            ),
    {
        let outcome = classify_fetch(direct_ok, fallback);
        self.items.push(RemoteFetch { remote, outcome });
        proof {
            assert(final(self).outcomes() =~= old(self).outcomes().push(
                (remote@, spec_outcome(direct_ok, fallback)),
            ));
        }
    }

    pub fn len(&self) -> (n: usize)
        ensures
            n == self.outcomes().len(),
    {
        self.items.len()
    }

    pub fn remote_at(&self, i: usize) -> (r: &Vec<char>)
        requires
            i < self.outcomes().len(),
        ensures
            r@ == self.outcomes()[i as int].0,
    {
        &self.items[i].remote
    }

    pub fn outcome_at(&self, i: usize) -> (r: FetchOutcome)
        requires
            i < self.outcomes().len(),
        ensures
            r == self.outcomes()[i as int].1,
    {
        self.items[i].outcome
    }
}

/// The names that a best-effort enumeration yielded: entries that failed
/// to resolve are silently dropped, the rest keep their order.
pub open spec fn spec_usable(items: Seq<Option<Vec<char>>>) -> Seq<Seq<char>>
    decreases items.len(),
{
    if items.len() == 0 {
        Seq::empty()
    } else {
        let rest = spec_usable(items.drop_last());
        match items.last() {
            Option::Some(n) => rest.push(n@),
            Option::None => rest,
        }
    }
}

/// Keep the names that resolved, in order, dropping the rest silently.
pub fn usable_names(items: &Vec<Option<Vec<char>>>) -> (r: Vec<Vec<char>>)
    ensures
        r.deep_view() == spec_usable(items@),
{
    let mut r: Vec<Vec<char>> = Vec::new();
    let mut i: usize = 0;
    proof {
        assert(r.deep_view() =~~= spec_usable(items@.subrange(0, 0)));
    }
    while i < items.len()
        invariant
            0 <= i <= items@.len(),
            r.deep_view() == spec_usable(items@.subrange(0, i as int)),
        decreases items.len() - i,
    {
        let ghost upto = items@.subrange(0, i as int + 1);
        proof {
            assert(upto.drop_last() =~= items@.subrange(0, i as int));
            assert(upto.last() == items@[i as int]);
        }
        let ghost before = r.deep_view();
        match &items[i] {
            Some(name) => {
                let copy = name.clone();
                r.push(copy);
                proof {
                    assert(r.deep_view() =~~= before.push(items@[i as int]->Some_0@));
                }
            },
            None => {
            },
        }
        i = i + 1;
    }
    proof {
        assert(items@.subrange(0, i as int) =~= items@);
    }
    r
}

} // verus!
