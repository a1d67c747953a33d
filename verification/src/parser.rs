//! A cursor over the tokens of one frame.

use vstd::prelude::*;
use bytes::Bytes;
use crate::buffer::bytes_seq;
use crate::codec::{frame_view, Data, Token};
use crate::error::Error;

verus! {

/// The tokens that follow the first; none where there is no first.
pub open spec fn after_first(ts: Seq<Token>) -> Seq<Token> {
    if ts.len() > 0 {
        ts.skip(1)
    } else {
        ts
    }
}

/// Hands out the tokens of a frame one by one.
pub struct Parser {
    data: Vec<Data>,
    next: usize,
}

impl Parser {
    #[verifier::type_invariant]
    spec fn inv(self) -> bool {
        self.next <= self.data@.len()
    }

    /// The tokens that were not handed out yet.
    pub closed spec fn rest(&self) -> Seq<Token> {
        frame_view(self.data@).skip(self.next as int)
    }

    /// A cursor at the first token of the frame.
    pub fn new(data: Vec<Data>) -> (out: Self)
        ensures
            out.rest() == frame_view(data@),
    {
        proof {
            assert(frame_view(data@).skip(0) =~= frame_view(data@));
        }
        Self { data, next: 0 }
    }

    /// Steps over the next token, if there is one, and says where it stood.
    fn step(&mut self) -> (at: Option<usize>)
        ensures
            final(self).rest() == after_first(old(self).rest()),
            final(self).data == old(self).data,
            match at {
                Some(i) => i < old(self).data@.len() && old(self).rest().len() > 0 && old(
                    self,
                ).rest()[0] == old(self).data@[i as int]@,
                None => old(self).rest().len() == 0,
            },
    {
        proof {
            use_type_invariant(&*self);
        }
        if self.next < self.data.len() {
            let i = self.next;
            self.next = i + 1;
            proof {
                assert(final(self).rest() =~= old(self).rest().skip(1));
            }
            Some(i)
        } else {
            None
        }
    }

    /// The next token, if it is a name. The cursor moves on whatever the token is.
    pub fn consume_name(&mut self) -> (out: Result<String, Error>)
        ensures
            final(self).rest() == after_first(old(self).rest()),
            match out {
                Ok(s) => old(self).rest().len() > 0 && old(self).rest()[0] == Token::Name(s@),
                Err(e) => e == Error::BadFormat && !(old(self).rest().len() > 0 && old(
                    self,
                ).rest()[0] is Name),
            },
    {
        match self.step() {
            Some(i) => match &self.data[i] {
                Data::String(name) => Ok(name.clone()),
                _ => Err(Error::BadFormat),
            },
            None => Err(Error::BadFormat),
        }
    }

    /// The next token, if it is a number. The cursor moves on whatever the token is.
    pub fn consume_integer(&mut self) -> (out: Result<u32, Error>)
        ensures
            final(self).rest() == after_first(old(self).rest()),
            match out {
                Ok(n) => old(self).rest().len() > 0 && old(self).rest()[0] == Token::Integer(n),
                Err(e) => e == Error::BadFormat && !(old(self).rest().len() > 0 && old(
                    self,
                ).rest()[0] is Integer),
            },
    {
        match self.step() {
            Some(i) => match &self.data[i] {
                Data::Integer(n) => Ok(*n),
                _ => Err(Error::BadFormat),
            },
            None => Err(Error::BadFormat),
        }
    }

    /// The next token, if it is a body. The cursor moves on whatever the token is.
    pub fn consume_bytes(&mut self) -> (out: Result<Bytes, Error>)
        ensures
            final(self).rest() == after_first(old(self).rest()),
            match out {
                Ok(b) => old(self).rest().len() > 0 && old(self).rest()[0] == Token::Bytes(
                    bytes_seq(b),
                ),
                Err(e) => e == Error::BadFormat && !(old(self).rest().len() > 0 && old(
                    self,
                ).rest()[0] is Bytes),
            },
    {
        match self.step() {
            Some(i) => match &self.data[i] {
                Data::Bytes(body) => Ok(body.clone()),
                _ => Err(Error::BadFormat),
            },
            None => Err(Error::BadFormat),
        }
    }

    /// Succeeds where no token is left. The cursor moves on where one is.
    pub fn finish(&mut self) -> (out: Result<(), Error>)
        ensures
            final(self).rest() == after_first(old(self).rest()),
            match out {
                Ok(_) => old(self).rest().len() == 0,
                Err(e) => e == Error::BadFormat && old(self).rest().len() > 0,
            },
    {
        match self.step() {
            Some(_) => Err(Error::BadFormat),
            None => Ok(()),
        }
    }
}

} // verus!
