//! A splitter that keeps the arguments of one line until they are read.

use crate::octets::{buffer_new, contents};
use crate::split::{split_into, split_line, texts};
use bytes::{Bytes, BytesMut};
use std::collections::VecDeque;
use vstd::prelude::*;

verus! {

/// Splits the lines of inline requests and hands out the arguments, first in,
/// first out.
#[derive(Debug)]
pub struct Splitter {
    /// The arguments that were split off and not read yet.
    arguments: VecDeque<Bytes>,
    /// Where an argument is put together.
    buffer: BytesMut,
}

impl Splitter {
    /// The arguments that wait to be read, the next one first.
    pub closed spec fn view(&self) -> Seq<Seq<u8>> {
        texts(self.arguments@)
    }

    /// A splitter with no arguments.
    pub fn new() -> (splitter: Self)
        ensures
            splitter@ == Seq::<Seq<u8>>::empty(),
    {
        let splitter = Splitter { arguments: VecDeque::new(), buffer: buffer_new() };
        assert(splitter@ =~= Seq::<Seq<u8>>::empty());
        splitter
    }

    /// Takes the next argument, if there is one.
    pub fn next(&mut self) -> (argument: Option<Bytes>)
        ensures
            match argument {
                Some(bytes) => old(self)@.len() > 0 && contents(bytes) == old(self)@[0]
                    && final(self)@ == old(self)@.skip(1),
                None => old(self)@.len() == 0 && final(self)@ == old(self)@,
            },
    {
        let argument = self.arguments.pop_front();
        proof {
            if argument.is_some() {
                assert(self@ =~= old(self)@.skip(1));
            }
        }
        argument
    }

    /// Splits `input` into arguments and puts them behind those that wait. An
    /// invalid line drops every argument instead, and `false` is returned.
    pub fn split(&mut self, input: &[u8]) -> (ok: bool)
        ensures
            ok == split_line(input@).is_some(),
            ok ==> final(self)@ == old(self)@ + split_line(input@).unwrap(),
            !ok ==> final(self)@.len() == 0,
    {
        split_into(input, &mut self.buffer, &mut self.arguments)
    }
}

impl Default for Splitter {
    fn default() -> (splitter: Self)
        ensures
            splitter@ == Seq::<Seq<u8>>::empty(),
    {
        Splitter::new()
    }
}

} // verus!
