//! The Obby client engine.
//!
//! One [`Client`] is one connection. It owns the registration state machine, the negotiated
//! capabilities and the client model. It opens no socket, reads no clock and renders nothing: the
//! host pushes bytes and time in, and drains bytes and events out.
//!
//! Every value has a view in mathematical terms, and every function says in its contract what it
//! does to that view. [`state`] tells what each thing that can happen does to a connection, and
//! [`session`] what each line of the server does to the model. The functions named `law_..` state
//! what holds of the whole.

pub mod batch;
pub mod caps;
pub mod client;
pub mod command;
pub mod command_laws;
pub mod config;
pub mod connection_laws;
pub mod crypto;
pub mod e2ee;
pub mod echo;
pub mod event;
pub mod extensions;
pub mod handshake;
pub mod identity;
pub mod isupport;
pub mod json;
pub mod label;
pub mod model;
pub mod model_laws;
pub mod monitor;
pub mod ratchet;
pub mod room;
pub mod sasl;
pub mod scram;
pub mod sdp;
pub mod secret_laws;
pub mod session;
pub mod session_laws;
pub mod sorted;
pub mod state;
pub mod text;
pub mod timer;
pub mod voice;
pub mod voice_laws;
pub mod wire;
pub mod wire_laws;

pub use caps::{Capabilities, Capability};
pub use client::Client;
pub use command::{Command, Typing};
pub use config::{Config, Phase};
pub use e2ee::{reassemble, Frag, Frame, Session, SessionState};
pub use event::{Event, Severity};
pub use extensions::{is_privileged, Bot, BotCommand, Bots, Commands, Invitation, LinkPreview};
pub use handshake::{
    accept_offer, complete_handshake, create_offer, HandshakeResponse, PendingOffer, PreKeyBundle,
};
pub use identity::{
    keeps_own_offer, Fingerprint, Identity, IdentityPublic, PeerTrust, PinOutcome, RandomSource,
};
pub use model::{
    Channel, Conversation, Log, Me, Membership, Message, MessageKey, MessageKind, Model, Person,
};
pub use monitor::Monitor;
pub use ratchet::{Ratchet, RatchetMessage};
pub use room::{Participant, Room};
pub use sasl::{Credentials, SaslFailure};
pub use scram::{Scram, ScramError};
pub use sdp::{split_sdp, SdpChunk, SdpReassembler};
pub use session::Change;
pub use timer::Now;
pub use voice::{
    ChunkMeta, OnOff, PresenceState, Role, RoomKind, Signal, ToggleKind, TrackHint,
    TurnCredentials,
};
pub use wire::{CaseFolded, Casemapping, Line};
