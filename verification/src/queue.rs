//! Values that are taken one by one.

use vstd::prelude::*;

verus! {

/// A list whose values are taken from the front.
pub struct Queue<T> {
    rest: Vec<T>,
}

impl<T> Queue<T> {
    /// The values that are left.
    pub closed spec fn view(&self) -> Seq<T> {
        self.rest@.reverse()
    }

    pub fn new(values: Vec<T>) -> (q: Self)
        ensures
            q@ == values@,
    {
        let mut values = values;
        let ghost all = values@;
        let mut rest: Vec<T> = Vec::new();
        let n: usize = values.len();
        for i in 0..n
            invariant
                n == all.len(),
                values@ == all.take(n - i),
                rest@.len() == i,
                forall|k: int| 0 <= k < i ==> #[trigger] rest@[k] == all[n - 1 - k],
        {
            rest.push(values.pop().unwrap());
            assert(values@ =~= all.take(n - i - 1));
        }
        let q = Queue { rest };
        assert(q@ =~= all);
        q
    }

    /// The next value.
    pub fn take(&mut self) -> (v: T)
        requires
            old(self)@.len() > 0,
        ensures
            v == old(self)@[0],
            final(self)@ == old(self)@.skip(1),
    {
        let ghost before = self@;
        let v = self.rest.pop().unwrap();
        assert(self@ =~= before.skip(1));
        v
    }
}

} // verus!
