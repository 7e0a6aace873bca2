use vstd::prelude::*;

verus! {

/// An append-only buffer with one more operation: taking a suffix off its end.
///
/// The string decoder collects the bytes of one literal in such a buffer and
/// takes them off again when the closing quote is found.
pub struct Stack<T> {
    stack: Vec<T>,
}

impl<T> View for Stack<T> {
    type V = Seq<T>;

    /// The buffered items, oldest first.
    closed spec fn view(&self) -> Seq<T> {
        self.stack@
    }
}

impl<T> Stack<T> {
    /// An empty buffer.
    pub fn new() -> (s: Self)
        ensures
            s@ == Seq::<T>::empty(),
    {
        Self { stack: Vec::new() }
    }

    /// The number of buffered items.
    pub fn len(&self) -> (n: usize)
        ensures
            n == self@.len(),
    {
        self.stack.len()
    }

    /// Appends a copy of every item of `bytes`, in order.
    pub fn push_bytes(&mut self, bytes: &[T]) where T: Clone
        ensures
            final(self)@.len() == old(self)@.len() + bytes@.len(),
            forall|i: int| 0 <= i < old(self)@.len() ==> final(self)@[i] == old(self)@[i],
            forall|i: int|
                0 <= i < bytes@.len() ==> cloned::<T>(
                    bytes@[i],
                    #[trigger] final(self)@[old(self)@.len() + i],
                ),
    {
        self.stack.extend_from_slice(bytes);
    }

    /// Appends one item.
    pub fn push_byte(&mut self, b: T)
        ensures
            final(self)@ == old(self)@.push(b),
    {
        self.stack.push(b);
    }

    /// Takes the last `size` items off the buffer and returns them in the
    /// order in which they were appended.
    pub fn pop_bytes(&mut self, size: usize) -> (taken: Vec<T>)
        requires
            size <= old(self)@.len(),
        ensures
            final(self)@ == old(self)@.take(old(self)@.len() - size),
            taken@ == old(self)@.skip(old(self)@.len() - size),
    {
        let len = self.stack.len();
        self.stack.split_off(len - size)
    }
}

} // verus!
