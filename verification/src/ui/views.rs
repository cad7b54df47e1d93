//! One message as the user interface shows it: who sent it, from where,
//! and what it says.
use vstd::prelude::*;
use vstd::string::StrSliceExecFns;

use crate::addr::PeerAddr;

verus! {

/// A shown message: who sent it, from where, and what it says. The length of
/// the author's name, in characters, is kept beside it for drawing.
pub struct MessageView {
    addr: PeerAddr,
    author: String,
    author_len: usize,
    needs_relayout: bool,
    message: String,
}

impl MessageView {
    #[verifier::type_invariant]
    spec fn author_len_matches(self) -> bool {
        self.author_len == self.author@.len()
    }

    pub closed spec fn spec_addr(&self) -> PeerAddr {
        self.addr
    }

    pub closed spec fn spec_author(&self) -> Seq<char> {
        self.author@
    }

    pub closed spec fn spec_author_len(&self) -> usize {
        self.author_len
    }

    pub closed spec fn spec_relayout_pending(&self) -> bool {
        self.needs_relayout
    }

    pub closed spec fn spec_message(&self) -> Seq<char> {
        self.message@
    }

    /// A message from `author` at `addr`, to be laid out.
    pub fn new(addr: PeerAddr, author: String, message: String) -> (r: MessageView)
        ensures
            r.spec_addr() == addr,
            r.spec_author() == author@,
            r.spec_author_len() == author@.len(),
            r.spec_relayout_pending(),
            r.spec_message() == message@,
    {
        let author_len = author.as_str().unicode_len();
        MessageView { addr, author, author_len, needs_relayout: true, message }
    }

    /// Gives the message another author's name, to be laid out again.
    pub fn set_author(&mut self, author: String)
        ensures
            final(self).spec_addr() == old(self).spec_addr(),
            final(self).spec_author() == author@,
            final(self).spec_author_len() == author@.len(),
            final(self).spec_relayout_pending(),
            final(self).spec_message() == old(self).spec_message(),
    {
        let author_len = author.as_str().unicode_len();
        let message = self.message.clone();
        *self = MessageView { addr: self.addr, author, author_len, needs_relayout: true, message };
    }

    /// A user at `at` took a new name: a message from there takes it as its
    /// author's name, to be laid out again; another message stays as it was.
    /// Says whether the message was from there.
    pub fn rename_if_from(&mut self, at: &PeerAddr, author: String) -> (r: bool)
        ensures
            r == (old(self).spec_addr() == *at),
            r ==> {
                &&& final(self).spec_addr() == old(self).spec_addr()
                &&& final(self).spec_author() == author@
                &&& final(self).spec_author_len() == author@.len()
                &&& final(self).spec_relayout_pending()
                &&& final(self).spec_message() == old(self).spec_message()
            },
            !r ==> *final(self) == *old(self),
    {
        if self.addr == *at {
            self.set_author(author);
            true
        } else {
            false
        }
    }

    /// Where the message came from.
    pub fn addr(&self) -> (r: &PeerAddr)
        ensures
            *r == self.spec_addr(),
    {
        &self.addr
    }

    /// The author's name.
    pub fn author(&self) -> (r: &String)
        ensures
            r@ == self.spec_author(),
    {
        &self.author
    }

    /// The number of characters of the author's name.
    pub fn author_len(&self) -> (r: usize)
        ensures
            r == self.spec_author_len(),
            r == self.spec_author().len(),
    {
        proof {
            use_type_invariant(self);
        }
        self.author_len
    }

    /// The text of the message.
    pub fn message(&self) -> (r: &String)
        ensures
            r@ == self.spec_message(),
    {
        &self.message
    }

    /// Whether the message must be laid out again, given whether its text must.
    pub fn needs_relayout(&self, text_needs_relayout: bool) -> (r: bool)
        ensures
            r == (self.spec_relayout_pending() || text_needs_relayout),
    {
        self.needs_relayout || text_needs_relayout
    }

    /// The column where the text starts: after the name and a colon and a space.
    pub fn text_column(&self) -> (r: usize)
        requires
            self.spec_author_len() + 2 <= usize::MAX,
        ensures
            r == self.spec_author_len() + 2,
    {
        self.author_len + 2
    }

    /// The width given to the text when the message is laid out in `width`
    /// columns: `width` widened by the column where the text starts.
    pub fn text_width(&self, width: usize) -> (r: usize)
        requires
            width + self.spec_author_len() + 2 <= usize::MAX,
        ensures
            r == width + self.spec_author_len() + 2,
    {
        width + self.author_len + 2
    }
}

} // verus!
