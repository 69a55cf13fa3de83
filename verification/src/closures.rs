//! Small higher-order utilities: a tracked update, a vector transform over a
//! caller-supplied function, and a compute-once cache.
use vstd::prelude::*;

verus! {

/// Applies a unit update twice to a tracker that starts at zero, and hands
/// the tracker back.
pub fn track_changes() -> (tracker: i32)
    ensures
        tracker == 2,
{
    let mut tracker: i32 = 0;
    let update = |t: i32| -> (r: i32)
        requires
            t < i32::MAX,
        ensures
            r == t + 1,
        { t + 1 };
    tracker = update(tracker);
    tracker = update(tracker);
    tracker
}

/// Applies `f` to every element: the result pairs with the input pointwise
/// through `f`'s postcondition.
pub fn process_vector<F: Fn(i32) -> i32>(vec: Vec<i32>, f: F) -> (r: Vec<i32>)
    requires
        forall|i: int| 0 <= i < vec@.len() ==> call_requires(f, (vec@[i],)),
    ensures
        r@.len() == vec@.len(),
        forall|i: int| 0 <= i < vec@.len() ==> call_ensures(f, (vec@[i],), #[trigger] r@[i]),
{
    let mut r: Vec<i32> = Vec::new();
    let mut i: usize = 0;
    while i < vec.len()
        invariant
            i <= vec@.len(),
            r@.len() == i,
            forall|t: int| 0 <= t < vec@.len() ==> call_requires(f, (vec@[t],)),
            forall|t: int| 0 <= t < i ==> call_ensures(f, (vec@[t],), #[trigger] r@[t]),
        decreases vec@.len() - i,
    {
        r.push(f(vec[i]));
        i += 1;
    }
    r
}

/// Runs a computation at most once and hands the cached result back on every
/// later call.
pub struct ComputeCache<T> where T: Fn() -> String {
    pub computation: T,
    pub cached: Option<String>,
}

impl<T> ComputeCache<T> where T: Fn() -> String {
    /// Wraps a computation, with nothing cached yet.
    pub fn new(computation: T) -> (c: ComputeCache<T>)
        ensures
            c.cached is None,
            c.computation == computation,
    {
        ComputeCache { computation, cached: None }
    }

    /// The result of the computation: computed and stored on the first call,
    /// read back unchanged on every later one.
    pub fn get_result(&mut self) -> (r: String)
        requires
            old(self).cached is None ==> call_requires(old(self).computation, ()),
        ensures
            final(self).computation == old(self).computation,
            match final(self).cached {
                Some(c) => c@ == r@,
                None => false,
            },
            match old(self).cached {
                Some(c) => r@ == c@ && final(self).cached == old(self).cached,
                None => call_ensures(old(self).computation, (), r),
            },
    {
        match &self.cached {
            Some(s) => s.clone(),
            None => {
                let s = (self.computation)();
                self.cached = Some(s.clone());
                s
            },
        }
    }
}

} // verus!
