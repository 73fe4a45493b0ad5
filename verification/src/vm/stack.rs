use vstd::prelude::*;
use vstd::std_specs::iter::IteratorSpec;

verus! {

/// A last-in first-out stack of 32-bit words.
pub struct Stack {
    data: Vec<u32>,
}

impl View for Stack {
    type V = Seq<u32>;

    /// The words on the stack, bottom first.
    closed spec fn view(&self) -> Seq<u32> {
        self.data@
    }
}

impl Stack {
    /// An empty stack.
    pub fn new() -> (s: Self)
        ensures
            s@ == Seq::<u32>::empty(),
    {
        Stack { data: Vec::new() }
    }

    /// Puts `value` on top.
    pub fn push(&mut self, value: u32)
        ensures
            final(self)@ == old(self)@.push(value),
    {
        self.data.push(value);
    }

    /// Takes the top word off; the stack must not be empty.
    pub fn pop(&mut self) -> (v: u32)
        requires
            old(self)@.len() > 0,
        ensures
            v == old(self)@.last(),
            final(self)@ == old(self)@.drop_last(),
    {
        match self.data.pop() {
            Some(v) => v,
            None => 0,
        }
    }

    /// The top word, if any.
    pub fn peek(&self) -> (r: Option<&u32>)
        ensures
            r == (if self@.len() == 0 {
                None
            } else {
                Some(&self@.last())
            }),
    {
        let n = self.data.len();
        if n == 0 {
            None
        } else {
            Some(&self.data[n - 1])
        }
    }

    /// The number of words on the stack.
    pub fn size(&self) -> (n: usize)
        ensures
            n == self@.len(),
    {
        self.data.len()
    }

    /// Whether the stack holds no word.
    pub fn is_empty(&self) -> (b: bool)
        ensures
            b == (self@.len() == 0),
    {
        self.data.len() == 0
    }

    /// An iterator over the words, bottom first.
    pub fn iter(&self) -> (it: std::slice::Iter<'_, u32>)
        ensures
            it.remaining().unref() == self@,
    {
        self.data.as_slice().iter()
    }
}

/// Popping right after a push gives the pushed word back and leaves the
/// stack as it was.
pub proof fn lemma_push_pop(s: Seq<u32>, v: u32)
    ensures
        s.push(v).last() == v,
        s.push(v).drop_last() == s,
        s.push(v).len() == s.len() + 1,
{
    assert(s.push(v).drop_last() =~= s);
}

} // verus!
