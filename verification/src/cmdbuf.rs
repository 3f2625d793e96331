//! The keys of a pending command and the count they spell.
use vstd::prelude::*;
use crate::digits::{parse_usize, parse_usize_spec};

verus! {

/// Keys typed so far.
#[derive(Debug, Clone, PartialEq, Eq, Hash)]
pub struct CmdBuf {
    buf: Vec<char>,
}

impl View for CmdBuf {
    type V = Seq<char>;

    closed spec fn view(&self) -> Seq<char> {
        self.buf@
    }
}

impl Default for CmdBuf {
    fn default() -> (b: Self)
        ensures
            b@ == Seq::<char>::empty(),
    {
        CmdBuf { buf: Vec::new() }
    }
}

impl CmdBuf {
    pub fn new() -> (b: Self)
        ensures
            b@ == Seq::<char>::empty(),
    {
        CmdBuf { buf: Vec::new() }
    }

    /// Appends a typed key.
    pub fn push(&mut self, c: char)
        ensures
            final(self)@ == old(self)@.push(c),
    {
        self.buf.push(c);
    }

    /// Takes all keys out and reads them as a number; 1 when there are none
    /// or they do not read as one.
    pub fn count(&mut self) -> (n: usize)
        ensures
            old(self)@.len() == 0 ==> n == 1,
            old(self)@.len() > 0 ==> n == (match parse_usize_spec(old(self)@) {
                Some(v) => v,
                None => 1,
            }),
            final(self)@ == Seq::<char>::empty(),
    {
        if self.buf.len() == 0 {
            return 1;
        }
        let mut keys: Vec<char> = Vec::new();
        std::mem::swap(&mut keys, &mut self.buf);
        let r = parse_usize(keys.as_slice(), 0, keys.len());
        assert(keys@.subrange(0, keys.len() as int) =~= keys@);
        match r {
            Some(v) => v,
            None => 1,
        }
    }
}

} // verus!
