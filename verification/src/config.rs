//! The agent's recording policy: the configured entry points decide
//! which qualified call names are recorded.

use vstd::prelude::*;

verus! {

/// The agent's configuration: the qualified names that mark recording
/// entry points.
pub struct Config {
    pub entry_points: Vec<String>,
}

impl Config {
    pub fn new(entry_points: Vec<String>) -> (r: Config)
        ensures
            r.entry_points@ == entry_points@,
    {
        Config { entry_points }
    }

    /// Whether `name` is one of the configured entry points.
    pub fn is_entry_point(&self, name: &String) -> (r: bool)
        ensures
            r == exists|i: int|
                0 <= i < self.entry_points@.len() && (#[trigger] self.entry_points@[i])@ == name@,
    {
        let mut k: usize = 0;
        while k < self.entry_points.len()
            invariant
                0 <= k <= self.entry_points@.len(),
                forall|i: int| 0 <= i < k ==> (#[trigger] self.entry_points@[i])@ != name@,
            decreases self.entry_points@.len() - k,
        {
            if self.entry_points[k] == *name {
                proof {
                    assert((self.entry_points@[k as int])@ == name@);
                }
                return true;
            }
            k += 1;
        }
        false
    }
}

} // verus!
