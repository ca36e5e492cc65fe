use vstd::prelude::*;

verus! {

/// A last-in-first-out stack of indices below a fixed capacity in which each
/// index is held at most once: pushing an index that is already held does
/// nothing.
pub struct StackSet {
    occupied: Vec<bool>,
    stack: Vec<usize>,
}

impl View for StackSet {
    type V = Seq<usize>;

    /// The held indices, bottom first.
    closed spec fn view(&self) -> Seq<usize> {
        self.stack@
    }
}

impl StackSet {
    /// Indices below this bound may be pushed.
    pub closed spec fn capacity(&self) -> nat {
        self.occupied@.len()
    }

    pub closed spec fn wf(&self) -> bool {
        &&& forall|i: int| 0 <= i < self.stack@.len() ==> self.stack@[i] < self.occupied@.len()
        &&& forall|v: usize|
            v < self.occupied@.len() ==> (self.occupied@[v as int] <==> self.stack@.contains(v))
        &&& self.stack@.no_duplicates()
    }

    pub proof fn lemma_bounded(&self)
        requires
            self.wf(),
        ensures
            forall|i: int| 0 <= i < self@.len() ==> self@[i] < self.capacity(),
            self@.no_duplicates(),
    {
    }

    /// An empty stack for indices below `max_len`.
    pub fn new(max_len: usize) -> (r: Self)
        ensures
            r.wf(),
            r@ == Seq::<usize>::empty(),
            r.capacity() == max_len,
    {
        let r = Self { occupied: vec![false; max_len], stack: Vec::new() };
        proof {
            assert(forall|v: usize| v < max_len ==> !#[trigger] r.stack@.contains(v));
        }
        r
    }

    /// A stack that holds every index below `max_len`, the largest on top.
    pub fn full(max_len: usize) -> (r: Self)
        ensures
            r.wf(),
            r@ == Seq::new(max_len as nat, |i: int| i as usize),
            r.capacity() == max_len,
    {
        let mut stack: Vec<usize> = Vec::new();
        let mut i: usize = 0;
        while i < max_len
            invariant
                i <= max_len,
                stack@ == Seq::new(i as nat, |k: int| k as usize),
            decreases max_len - i,
        {
            stack.push(i);
            i = i + 1;
            assert(stack@ =~= Seq::new(i as nat, |k: int| k as usize));
        }
        let r = Self { occupied: vec![true; max_len], stack };
        proof {
            assert forall|v: usize| v < max_len implies #[trigger] r.stack@.contains(v) by {
                assert(r.stack@[v as int] == v);
            }
        }
        r
    }

    /// Puts `value` on top unless it is already held.
    pub fn push(&mut self, value: usize)
        requires
            old(self).wf(),
            value < old(self).capacity(),
        ensures
            final(self).wf(),
            final(self).capacity() == old(self).capacity(),
            final(self)@ == (if old(self)@.contains(value) {
                old(self)@
            } else {
                old(self)@.push(value)
            }),
    {
        if !self.occupied[value] {
            self.occupied.set(value, true);
            self.stack.push(value);
            proof {
                let s = self.stack@;
                assert(s.last() == value);
                assert forall|v: usize| v < self.occupied@.len() implies (self.occupied@[v as int]
                    <==> self.stack@.contains(v)) by {
                                        if v != value {
                        if s.contains(v) {
                            let k = choose|k: int| 0 <= k < s.len() && s[k] == v;
                            assert(k != s.len() - 1);
                            assert(old(self).stack@[k] == v);
                        }
                        if old(self).stack@.contains(v) {
                            let k = choose|k: int|
                                0 <= k < old(self).stack@.len() && old(self).stack@[k]
                                    == v;
                            assert(s[k] == v);
                        }
                    } else {
                        assert(s[s.len() - 1] == value);
                    }
                }
            }
        }
    }

    /// Takes the top index off, or returns `None` when the stack is empty.
    pub fn pop(&mut self) -> (r: Option<usize>)
        requires
            old(self).wf(),
        ensures
            final(self).wf(),
            final(self).capacity() == old(self).capacity(),
            old(self)@.len() == 0 ==> r is None && final(self)@ == old(self)@,
            old(self)@.len() > 0 ==> r == Some(old(self)@.last()) && final(self)@
                == old(self)@.drop_last(),
    {
        if let Some(value) = self.stack.pop() {
            proof {
                let s = old(self).stack@;
                assert(s[s.len() - 1] == value);
            }
            self.occupied.set(value, false);
            proof {
                let s = old(self).stack@;
                let t = self.stack@;
                assert forall|v: usize| v < self.occupied@.len() implies (self.occupied@[v as int]
                    <==> t.contains(v)) by {
                                        if v == value {
                        if t.contains(v) {
                            let k = choose|k: int| 0 <= k < t.len() && t[k] == v;
                            assert(s[k] == s[s.len() - 1]);
                        }
                    } else {
                        if t.contains(v) {
                            let k = choose|k: int| 0 <= k < t.len() && t[k] == v;
                            assert(s[k] == v);
                        }
                        if s.contains(v) {
                            let k = choose|k: int| 0 <= k < s.len() && s[k] == v;
                            assert(k != s.len() - 1);
                            assert(t[k] == v);
                        }
                    }
                }
            }
            Some(value)
        } else {
            None
        }
    }
}

} // verus!
