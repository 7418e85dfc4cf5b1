//! Cancellation tokens of the scans in progress.
use std::collections::HashMap;
use std::sync::atomic::{AtomicBool, Ordering};
use std::sync::Arc;
use vstd::prelude::*;

verus! {

broadcast use vstd::std_specs::hash::group_hash_axioms;

/// Manages the cancellation tokens of in-progress scans, by run id.
pub struct ScanManager {
    pub tokens: HashMap<i64, Arc<AtomicBool>>,
}

impl ScanManager {
    /// Creates a new, empty manager.
    pub fn new() -> (m: Self)
        ensures
            m.tokens@ == Map::<i64, Arc<AtomicBool>>::empty(),
    {
        ScanManager { tokens: HashMap::new() }
    }

    /// Registers a new scan run and returns a fresh cancellation token for
    /// it, replacing any earlier token of the same run.
    pub fn register(&mut self, run_id: i64) -> (token: Arc<AtomicBool>)
        ensures
            final(self).tokens@ == old(self).tokens@.insert(run_id, token),
    {
        let token = Arc::new(AtomicBool::new(false));
        self.tokens.insert(run_id, token.clone());
        token
    }

    /// Requests cancellation of the run: sets its token when the run is
    /// known. Returns whether it was.
    pub fn cancel(&self, run_id: i64) -> (known: bool)
        ensures
            known == self.tokens@.contains_key(run_id),
    {
        match self.tokens.get(&run_id) {
            Some(token) => {
                token.store(true, Ordering::Relaxed);
                true
            },
            None => false,
        }
    }

    /// Forgets a run after it finishes.
    pub fn remove(&mut self, run_id: i64)
        ensures
            final(self).tokens@ == old(self).tokens@.remove(run_id),
    {
        self.tokens.remove(&run_id);
    }
}


/// A run just registered can be cancelled; a run just removed cannot.
pub proof fn lemma_register_cancel_remove(tokens: Map<i64, Arc<AtomicBool>>, run_id: i64, token: Arc<AtomicBool>)
    ensures
        tokens.insert(run_id, token).contains_key(run_id),
        !tokens.remove(run_id).contains_key(run_id),
        tokens.remove(run_id).insert(run_id, token).contains_key(run_id),
{
}

} // verus!
