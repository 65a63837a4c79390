//! What a host gives the engine, and how far a connection has got.

use vstd::prelude::*;

use crate::model::DEFAULT_RETENTION;
use crate::sasl::{Credentials, CredentialsView};

verus! {

/// How far the connection has got.
#[derive(Debug, Clone, Copy, PartialEq, Eq, Structural)]
pub enum Phase {
    /// No transport yet. Nothing has been written.
    Disconnected,
    /// The transport is up and capability negotiation is running.
    Negotiating,
    /// Capabilities are settled, `CAP END` and the registration lines are sent, waiting for `001`.
    Registering,
    /// `001` arrived. The connection is usable.
    Registered,
}

/// What a host needs to give the engine before it can connect.
///
/// Every field but the nick has a default. An empty username or realname is filled in from the
/// nick.
#[derive(Clone)]
pub struct Config {
    /// The nick to register with.
    pub nick: String,
    /// The username sent in `USER`. Defaults to the nick.
    pub username: String,
    /// The realname sent in `USER`. Defaults to the nick.
    pub realname: String,
    /// The server password, sent as `PASS` before anything else.
    pub password: Option<String>,
    /// What to authenticate with, when the server offers `sasl`.
    pub sasl: Option<Credentials>,
    /// How many messages each channel and conversation keeps.
    pub retention: usize,
    /// Nicks to fall back through when the server says that ours is taken during registration.
    ///
    /// Registration stalls forever if nobody answers a 433, so the engine walks this list and then
    /// starts appending underscores rather than leaving the connection hung.
    pub alt_nicks: Vec<String>,
}

/// What a [`Config`] says.
#[verifier::ext_equal]
pub struct ConfigView {
    pub nick: Seq<char>,
    pub username: Seq<char>,
    pub realname: Seq<char>,
    pub password: Option<Seq<char>>,
    pub sasl: Option<CredentialsView>,
    pub retention: usize,
    pub alt_nicks: Seq<Seq<char>>,
}

impl View for Config {
    type V = ConfigView;

    open spec fn view(&self) -> ConfigView {
        ConfigView {
            nick: self.nick@,
            username: self.username@,
            realname: self.realname@,
            password: self.password.deep_view(),
            sasl: self.sasl.deep_view(),
            retention: self.retention,
            alt_nicks: self.alt_nicks.deep_view(),
        }
    }
}

impl ConfigView {
    /// One that registers with a nick and nothing else.
    pub open spec fn named(nick: Seq<char>) -> ConfigView {
        ConfigView {
            nick,
            username: nick,
            realname: nick,
            password: None,
            sasl: None,
            retention: DEFAULT_RETENTION,
            alt_nicks: Seq::empty(),
        }
    }

    /// With what is empty filled in from the nick: some servers refuse an empty username outright.
    pub open spec fn filled(self) -> ConfigView {
        ConfigView {
            username: if self.username.len() == 0 {
                self.nick
            } else {
                self.username
            },
            realname: if self.realname.len() == 0 {
                self.nick
            } else {
                self.realname
            },
            ..self
        }
    }
}

impl Config {
    /// A config that registers with one nick and nothing else.
    pub fn new(nick: &str) -> (r: Self)
        ensures
            r@ == ConfigView::named(nick@),
    {
        let r = Config {
            nick: nick.to_owned(),
            username: nick.to_owned(),
            realname: nick.to_owned(),
            password: None,
            sasl: None,
            retention: DEFAULT_RETENTION,
            alt_nicks: Vec::new(),
        };
        assert(r@ =~= ConfigView::named(nick@));
        r
    }
}

impl Default for Config {
    fn default() -> (r: Self)
        ensures
            r@ == ConfigView::named(Seq::empty()),
    {
        let r = Config::new("");
        proof {
            reveal_strlit("");
            assert(""@ =~= Seq::<char>::empty());
        }
        r
    }
}

} // verus!
