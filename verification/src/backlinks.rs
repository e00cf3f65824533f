//! Backlinks: recording on the cited side which message made a citation.

use crate::document::{position_of_id, Oodle, OodleView};
use crate::message::{Message, MessageView};
use crate::reference::{backlinks_view, Backlink, BacklinkView};
use crate::text::same_text;
use vstd::prelude::*;

verus! {

/// The backlinks with `link` among them: added at the end unless it is there
/// already.
pub open spec fn with_backlink(links: Seq<BacklinkView>, link: BacklinkView) -> Seq<BacklinkView> {
    if links.contains(link) {
        links
    } else {
        links.push(link)
    }
}

/// The message once `link` has cited it.
pub open spec fn cited_message(m: MessageView, link: BacklinkView) -> MessageView {
    MessageView { backlinks: with_backlink(m.backlinks, link), ..m }
}

/// The document once `link` has cited it as a whole.
pub open spec fn cited_document(d: OodleView, link: BacklinkView) -> OodleView {
    OodleView { backlinks: with_backlink(d.backlinks, link), ..d }
}

/// The document once `link` has cited its first message with id
/// `message_id`; unchanged when it holds no such message.
pub open spec fn cited_in_document(d: OodleView, message_id: usize, link: BacklinkView)
    -> OodleView {
    let k = position_of_id(d.messages, message_id, 0);
    if 0 <= k < d.messages.len() {
        OodleView { messages: d.messages.update(k, cited_message(d.messages[k], link)), ..d }
    } else {
        d
    }
}

/// A copy of a backlink.
pub fn copy_backlink(link: &Backlink) -> (r: Backlink)
    ensures
        r@ == link@,
{
    Backlink { oodle_id: link.oodle_id.clone(), message_id: link.message_id }
}

/// Whether `link` is among `links`.
fn holds_backlink(links: &Vec<Backlink>, link: &Backlink) -> (r: bool)
    ensures
        r == backlinks_view(links@).contains(link@),
{
    let mut i: usize = 0;
    while i < links.len()
        invariant
            i <= links.len(),
            forall|j: int| 0 <= j < i ==> backlinks_view(links@)[j] != link@,
        decreases links.len() - i,
    {
        if links[i].message_id == link.message_id && same_text(
            links[i].oodle_id.as_str(),
            link.oodle_id.as_str(),
        ) {
            assert(backlinks_view(links@)[i as int] == link@);
            return true;
        }
        i = i + 1;
    }
    false
}

/// Records `link` among `links` unless it is there already.
pub fn add_backlink(links: &mut Vec<Backlink>, link: &Backlink)
    ensures
        backlinks_view(final(links)@) == with_backlink(backlinks_view(old(links)@), link@),
{
    if !holds_backlink(links, link) {
        links.push(copy_backlink(link));
    }
}

impl Message {
    /// Records that `link` cites this message.
    pub fn add_backlink(&mut self, link: &Backlink)
        ensures
            final(self)@ == cited_message(old(self)@, link@),
    {
        add_backlink(&mut self.backlinks, link);
    }
}

impl Oodle {
    /// Records that `link` cites this document as a whole.
    pub fn add_backlink(&mut self, link: &Backlink)
        ensures
            final(self)@ == cited_document(old(self)@, link@),
    {
        add_backlink(&mut self.backlinks, link);
    }

    /// Records that `link` cites the message stored under `message_id`;
    /// nothing changes when there is none.
    pub fn add_message_backlink(&mut self, message_id: usize, link: &Backlink)
        ensures
            final(self)@ == cited_in_document(old(self)@, message_id, link@),
    {
        let mut i: usize = 0;
        while i < self.messages.len()
            invariant
                *self == *old(self),
                i <= self.messages.len(),
                position_of_id(self@.messages, message_id, 0) == position_of_id(
                    self@.messages,
                    message_id,
                    i as int,
                ),
            decreases self.messages.len() - i,
        {
            if self.messages[i].id == message_id {
                self.messages[i].add_backlink(link);
                assert(self@.messages =~= old(self)@.messages.update(
                    i as int,
                    cited_message(old(self)@.messages[i as int], link@),
                ));
                return ;
            }
            i = i + 1;
        }
    }
}

} // verus!
