use vstd::prelude::*;

use crate::text::int_token;
use crate::text::push_int_token;

verus! {

/// The accumulator behind the native-plugin callbacks: the byte buffer that
/// one `generate` call fills through them. Its view is the buffer's
/// contents.
pub struct ContextState {
    stdin: Vec<u8>,
}

impl View for ContextState {
    type V = Seq<u8>;

    closed spec fn view(&self) -> Seq<u8> {
        self.stdin@
    }
}

impl ContextState {
    /// A fresh, empty accumulator for one generation call.
    pub fn new() -> (r: ContextState)
        ensures
            r@ == Seq::<u8>::empty(),
    {
        ContextState { stdin: Vec::new() }
    }

    /// Appends a record separator.
    pub fn new_line(&mut self)
        ensures
            final(self)@ == old(self)@.push(10),
    {
        self.stdin.push(10);
    }

    /// Appends one integer in canonical decimal, followed by one space, the
    /// same form the interpreted generator emits.
    pub fn push_integer(&mut self, value: i64)
        ensures
            final(self)@ == old(self)@ + int_token(value as int),
    {
        push_int_token(&mut self.stdin, value);
    }

    /// Appends a byte string verbatim, with no trailing delimiter.
    pub fn ascii(&mut self, bytes: &Vec<u8>)
        ensures
            final(self)@ == old(self)@ + bytes@,
    {
        let mut i: usize = 0;
        assert(self@ =~= old(self)@ + bytes@.take(0));
        while i < bytes.len()
            invariant
                i <= bytes@.len(),
                self@ == old(self)@ + bytes@.take(i as int),
            decreases bytes@.len() - i,
        {
            self.stdin.push(bytes[i]);
            assert(self@ =~= old(self)@ + bytes@.take(i + 1));
            i = i + 1;
        }
        assert(self@ =~= old(self)@ + bytes@);
    }

    /// Hands the accumulated buffer out as the generated input.
    pub fn into_stdin(self) -> (r: Vec<u8>)
        ensures
            r@ == self@,
    {
        self.stdin
    }
}

} // verus!
