//! The state of a decoder that is fed files and asked for pictures.
use vstd::prelude::*;
use crate::image::TiffImage;

verus! {

/// What a decoder answers when it is asked for a picture.
#[derive(Debug, Clone)]
pub enum Reply {
    /// The picture of the file that it was fed.
    Picture(TiffImage),
    /// There is none until another file is fed.
    NeedMore,
    /// There is none, and no file follows.
    Finished,
}

/// A decoder between two calls.
#[derive(Debug, Clone)]
pub struct DecodeSession {
    /// The picture that was not yet asked for.
    pub pending: Option<TiffImage>,
    /// Whether no file follows.
    pub ended: bool,
}

impl DecodeSession {
    /// A decoder that was fed nothing.
    pub fn new() -> (s: DecodeSession)
        ensures
            s.pending is None,
            !s.ended,
    {
        DecodeSession { pending: None, ended: false }
    }

    /// Takes the picture of a file. One that was not asked for is lost.
    pub fn accept(&mut self, image: TiffImage)
        ensures
            final(self).pending == Some(image),
            final(self).ended == old(self).ended,
    {
        self.pending = Some(image);
    }

    /// Hands out the picture, once.
    pub fn receive(&mut self) -> (r: Reply)
        ensures
            final(self).pending is None,
            final(self).ended == old(self).ended,
            r == (match old(self).pending {
                Some(image) => Reply::Picture(image),
                None => if old(self).ended { Reply::Finished } else { Reply::NeedMore },
            }),
    {
        match self.pending.take() {
            Some(image) => Reply::Picture(image),
            None => if self.ended { Reply::Finished } else { Reply::NeedMore },
        }
    }

    /// Says that no file follows.
    pub fn flush(&mut self)
        ensures
            final(self).pending == old(self).pending,
            final(self).ended,
    {
        self.ended = true;
    }
}

} // verus!
