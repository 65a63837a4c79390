//! A bot that answers anyone who says hello.

use vstd::prelude::*;
use vstd::string::*;

use crate::event::{Event, EventView};
use crate::model::{Model, ModelView};
use crate::session::{find_next, next_occurrence, occurs_at, Change, ChangeView};
use crate::text::{chars_of, same};
use crate::wire::Casemapping;

verus! {

/// What the bot does about something that happened.
#[derive(Debug, Clone, PartialEq, Eq)]
#[allow(inconsistent_fields)]
pub enum Reaction {
    /// We are registered under this nick: join the channel.
    Join {
        /// The nick.
        nick: String,
    },
    /// Someone said something.
    Heard {
        /// Where.
        target: String,
        /// Who.
        sender: String,
        /// What.
        text: String,
        /// What to say back, where it calls for an answer.
        answer: Option<String>,
    },
    /// The link is gone.
    Stop,
    /// Nothing.
    Ignore,
}

/// What a [`Reaction`] says.
#[allow(inconsistent_fields)]
pub enum ReactionView {
    Join { nick: Seq<char> },
    Heard {
        target: Seq<char>,
        sender: Seq<char>,
        text: Seq<char>,
        answer: Option<Seq<char>>,
    },
    Stop,
    Ignore,
}

impl View for Reaction {
    type V = ReactionView;

    open spec fn view(&self) -> ReactionView {
        match self {
            Reaction::Join { nick } => ReactionView::Join { nick: nick@ },
            Reaction::Heard { target, sender, text, answer } => ReactionView::Heard {
                target: target@,
                sender: sender@,
                text: text@,
                answer: answer.deep_view(),
            },
            Reaction::Stop => ReactionView::Stop,
            Reaction::Ignore => ReactionView::Ignore,
        }
    }
}

/// True when a text says hello.
pub open spec fn says_hello(text: Seq<char>) -> bool {
    exists|at: int| #[trigger] occurs_at(text, "hello"@, at)
}

/// What to say back: hello to whoever said hello, unless it was us.
pub open spec fn answer_to(own: Seq<char>, sender: Seq<char>, text: Seq<char>) -> Option<
    Seq<char>,
> {
    if says_hello(text) && sender != own {
        Some("hello "@ + sender)
    } else {
        None
    }
}

/// What the bot does about an event.
pub open spec fn reaction_to(
    own: Seq<char>,
    casemapping: Casemapping,
    m: ModelView,
    event: EventView,
) -> ReactionView {
    match event {
        EventView::Registered { nick } => ReactionView::Join { nick },
        EventView::Changed { change: ChangeView::Message { target, key } } => {
            let folded = casemapping.folded(target);
            if m.channels.contains_key(folded) && m.channels[folded].log.messages.contains_key(
                key,
            ) {
                let message = m.channels[folded].log.messages[key];
                ReactionView::Heard {
                    target,
                    sender: message.sender,
                    text: message.text,
                    answer: answer_to(own, message.sender, message.text),
                }
            } else {
                ReactionView::Ignore
            }
        },
        EventView::LinkDead => ReactionView::Stop,
        _ => ReactionView::Ignore,
    }
}

/// What to say back to a message, where it calls for an answer. `own` is our nick.
pub fn answer(own: &str, sender: &str, text: &str) -> (r: Option<String>)
    ensures
        r.deep_view() == answer_to(own@, sender@, text@),
{
    let chars = chars_of(text);
    let hello = chars_of("hello");
    proof {
        reveal_strlit("hello");
        lemma_first_occurrence(text@, "hello"@, 0);
    }
    if find_next(&chars, &hello, 0).is_some() && !same(sender, own) {
        let mut out = "hello ".to_owned();
        out.append(sender);
        Some(out)
    } else {
        None
    }
}

/// Looking for a text from the start on finds it wherever it is.
proof fn lemma_first_occurrence(text: Seq<char>, needle: Seq<char>, from: int)
    requires
        0 <= from,
        needle.len() > 0,
    ensures
        next_occurrence(text, needle, from) is Some <==> exists|at: int|
            from <= at && #[trigger] occurs_at(text, needle, at),
    decreases text.len() - from,
{
    if from + needle.len() <= text.len() && !occurs_at(text, needle, from) {
        lemma_first_occurrence(text, needle, from + 1);
        assert forall|at: int| from <= at && #[trigger] occurs_at(text, needle, at) implies from + 1
            <= at by {}
    }
}

/// What the bot does about an event. `own` is our nick, and `casemapping` is the server's.
pub fn react(own: &str, casemapping: Casemapping, model: &Model, event: &Event) -> (r: Reaction)
    ensures
        r@ == reaction_to(own@, casemapping, model@, event@),
{
    match event {
        Event::Registered { nick } => Reaction::Join { nick: nick.clone() },
        Event::Changed { change: Change::Message { target, key } } => {
            match model.channel(&casemapping.fold(target)) {
                Some(channel) => match channel.log.get_by_key(key) {
                    Some(message) => Reaction::Heard {
                        target: target.clone(),
                        sender: message.sender.clone(),
                        text: message.text.clone(),
                        answer: answer(own, &message.sender, &message.text),
                    },
                    None => Reaction::Ignore,
                },
                None => Reaction::Ignore,
            }
        },
        Event::LinkDead => Reaction::Stop,
        _ => Reaction::Ignore,
    }
}

} // verus!
