//! Capability negotiation state.

use vstd::prelude::*;

use crate::sorted::{enumerates, in_order, lemma_has_order, lemma_in_order, Ordered, SortedMap};
use crate::text::{
    contains_string, cut, drop_string, other_text, split_once, split_words, strip_char,
    without_prefix, words,
};

verus! {

/// The capabilities this engine knows how to use, in the order we ask for them.
///
/// A capability that is not named here is never requested, because requesting one that we cannot
/// handle changes what the server sends and breaks parsing. Those that change parsing come first.
pub open spec fn wanted() -> Seq<Seq<char>> {
    seq![
        "message-tags"@,
        "server-time"@,
        "batch"@,
        "labeled-response"@,
        "echo-message"@,
        "draft/multiline"@,
        "multi-prefix"@,
        "userhost-in-names"@,
        "extended-join"@,
        "account-notify"@,
        "account-tag"@,
        "away-notify"@,
        "chghost"@,
        "invite-notify"@,
        "setname"@,
        "cap-notify"@,
        "monitor"@,
        "extended-monitor"@,
        "draft/chathistory"@,
        "draft/event-playback"@,
        "draft/read-marker"@,
        "draft/typing"@,
        "draft/message-redaction"@,
        "draft/channel-rename"@,
        "channel-context"@,
        "draft/channel-context"@,
        "standard-replies"@,
        "draft/named-modes"@,
        "draft/metadata-2"@,
        "draft/extended-isupport"@,
        "draft/extended-isupport-0.2"@,
        "sasl"@,
        "draft/whoami"@,
        "draft/account-registration"@,
        "draft/account-2fa"@,
        "soju.im/bouncer-networks"@,
        "soju.im/bouncer-networks-notify"@,
        "znc.in/playback"@,
        "obsidianirc/cmdslist"@,
        "obby.world/channel-bots"@,
        "draft/bot-cmds"@,
        "draft/bot-tools"@,
        "obby.world/whois"@,
        "obby.world/invitation"@,
        "draft/authtoken"@,
        "draft/persistence"@,
        "unrealircd.org/json-log"@,
        "obsidianirc/voice"@,
    ]
}

/// The names of [`wanted`].
pub fn wanted_caps() -> (r: Vec<&'static str>)
    ensures
        r@.map_values(|name: &'static str| name@) == wanted(),
{
    let r = vec![
        "message-tags",
        "server-time",
        "batch",
        "labeled-response",
        "echo-message",
        "draft/multiline",
        "multi-prefix",
        "userhost-in-names",
        "extended-join",
        "account-notify",
        "account-tag",
        "away-notify",
        "chghost",
        "invite-notify",
        "setname",
        "cap-notify",
        "monitor",
        "extended-monitor",
        "draft/chathistory",
        "draft/event-playback",
        "draft/read-marker",
        "draft/typing",
        "draft/message-redaction",
        "draft/channel-rename",
        "channel-context",
        "draft/channel-context",
        "standard-replies",
        "draft/named-modes",
        "draft/metadata-2",
        "draft/extended-isupport",
        "draft/extended-isupport-0.2",
        "sasl",
        "draft/whoami",
        "draft/account-registration",
        "draft/account-2fa",
        "soju.im/bouncer-networks",
        "soju.im/bouncer-networks-notify",
        "znc.in/playback",
        "obsidianirc/cmdslist",
        "obby.world/channel-bots",
        "draft/bot-cmds",
        "draft/bot-tools",
        "obby.world/whois",
        "obby.world/invitation",
        "draft/authtoken",
        "draft/persistence",
        "unrealircd.org/json-log",
        "obsidianirc/voice",
    ];
    assert(r@.map_values(|name: &'static str| name@) =~= wanted());
    r
}

/// One capability the server granted, with the value it carried if any.
#[derive(Debug, Clone, PartialEq, Eq)]
pub struct Capability {
    /// The capability name, without any `=value` suffix.
    pub name: String,
    /// The value, for capabilities like `sasl=PLAIN,EXTERNAL` that carry one.
    pub value: Option<String>,
}

/// What a [`Capability`] says.
#[verifier::ext_equal]
pub struct CapabilityView {
    pub name: Seq<char>,
    pub value: Option<Seq<char>>,
}

impl View for Capability {
    type V = CapabilityView;

    open spec fn view(&self) -> CapabilityView {
        CapabilityView { name: self.name@, value: self.value.deep_view() }
    }
}

impl DeepView for Capability {
    type V = CapabilityView;

    open spec fn deep_view(&self) -> CapabilityView {
        self@
    }
}

/// What the server offers and what we hold.
#[derive(Clone)]
pub struct Capabilities {
    available: SortedMap<String, Option<String>>,
    acknowledged: SortedMap<String, Option<String>>,
    pending: Vec<String>,
}

/// What [`Capabilities`] hold: what the server offers, what it granted, and what we asked for and
/// still wait on. Registration cannot finish while we wait, because `CAP END` before the last
/// reply loses the capability.
#[verifier::ext_equal]
pub struct CapsView {
    pub available: Map<Seq<char>, Option<Seq<char>>>,
    pub acknowledged: Map<Seq<char>, Option<Seq<char>>>,
    pub pending: Seq<Seq<char>>,
}

impl View for Capabilities {
    type V = CapsView;

    closed spec fn view(&self) -> CapsView {
        CapsView {
            available: self.available@,
            acknowledged: self.acknowledged@,
            pending: self.pending.deep_view(),
        }
    }
}

/// The name and the value of a token such as `sasl=PLAIN`.
pub open spec fn valued(token: Seq<char>) -> (Seq<char>, Option<Seq<char>>) {
    match cut(token, '=') {
        Some((name, value)) => (name, Some(value)),
        None => (token, None),
    }
}

/// The names that an acknowledgement grants: all but those it takes back with a `-`.
pub open spec fn granted(tokens: Seq<Seq<char>>) -> Seq<Seq<char>>
    decreases tokens.len(),
{
    if tokens.len() == 0 {
        Seq::empty()
    } else if without_prefix(tokens.last(), '-') is Some {
        granted(tokens.drop_last())
    } else {
        granted(tokens.drop_last()).push(valued(tokens.last()).0)
    }
}

impl CapsView {
    /// Before anything was said.
    pub open spec fn none() -> CapsView {
        CapsView { available: Map::empty(), acknowledged: Map::empty(), pending: Seq::empty() }
    }

    /// With these tokens on offer.
    pub open spec fn offering(self, tokens: Seq<Seq<char>>) -> CapsView
        decreases tokens.len(),
    {
        if tokens.len() == 0 {
            self
        } else {
            let (name, value) = valued(tokens.last());
            let rest = self.offering(tokens.drop_last());
            CapsView { available: rest.available.insert(name, value), ..rest }
        }
    }

    /// With these tokens neither on offer nor held.
    pub open spec fn withdrawing(self, tokens: Seq<Seq<char>>) -> CapsView
        decreases tokens.len(),
    {
        if tokens.len() == 0 {
            self
        } else {
            let name = valued(tokens.last()).0;
            let rest = self.withdrawing(tokens.drop_last());
            CapsView {
                available: rest.available.remove(name),
                acknowledged: rest.acknowledged.remove(name),
                ..rest
            }
        }
    }

    /// True for what is on offer and neither held nor asked for.
    pub open spec fn wants(self) -> spec_fn(Seq<char>) -> bool {
        |name: Seq<char>|
            self.available.contains_key(name) && !self.acknowledged.contains_key(name)
                && !self.pending.contains(name)
    }

    /// What to ask for.
    pub open spec fn to_request(self) -> Seq<Seq<char>> {
        wanted().filter(self.wants())
    }

    /// No longer waiting for this name.
    pub open spec fn answered(self, name: Seq<char>) -> CapsView {
        CapsView { pending: self.pending.filter(other_text(name)), ..self }
    }

    /// After one token of an acknowledgement. A grant without a value keeps the one on offer, or
    /// the SASL mechanism list would be gone the moment the capability is granted.
    pub open spec fn acking(self, token: Seq<char>) -> CapsView {
        match without_prefix(token, '-') {
            Some(name) => CapsView { acknowledged: self.acknowledged.remove(name), ..self }.answered(
                name,
            ),
            None => {
                let (name, value) = valued(token);
                let value = if value is None && self.available.contains_key(name) {
                    self.available[name]
                } else {
                    value
                };
                CapsView {
                    acknowledged: self.acknowledged.insert(name, value),
                    ..self
                }.answered(name)
            },
        }
    }

    /// After an acknowledgement.
    pub open spec fn acknowledging(self, tokens: Seq<Seq<char>>) -> CapsView
        decreases tokens.len(),
    {
        if tokens.len() == 0 {
            self
        } else {
            self.acknowledging(tokens.drop_last()).acking(tokens.last())
        }
    }

    /// After a refusal: nothing is granted, we only stop waiting.
    pub open spec fn rejecting(self, tokens: Seq<Seq<char>>) -> CapsView
        decreases tokens.len(),
    {
        if tokens.len() == 0 {
            self
        } else {
            self.rejecting(tokens.drop_last()).answered(valued(tokens.last()).0)
        }
    }

    /// Everything held, sorted by name.
    pub open spec fn enabled(self) -> Seq<CapabilityView> {
        in_order(self.acknowledged.dom()).map_values(
            |name: Seq<char>| (CapabilityView { name, value: self.acknowledged[name] }),
        )
    }
}

fn split_value(token: &str) -> (r: (String, Option<String>))
    ensures
        r.deep_view() == valued(token@),
{
    match split_once(token, '=') {
        Some((name, value)) => (name, Some(value)),
        None => (token.to_owned(), None),
    }
}

impl Default for Capabilities {
    fn default() -> (r: Self)
        ensures
            r@ == CapsView::none(),
    {
        let r = Capabilities {
            available: SortedMap::new(),
            acknowledged: SortedMap::new(),
            pending: Vec::new(),
        };
        assert(r@ =~= CapsView::none());
        r
    }
}

impl Capabilities {
    /// Record one `CAP LS` or `CAP NEW` line's worth of advertisements.
    pub fn advertise(&mut self, list: &str)
        ensures
            final(self)@ == old(self)@.offering(words(list@)),
    {
        let tokens = split_words(list);
        let ghost all = tokens.deep_view();
        let ghost start = self@;
        let mut i: usize = 0;
        assert(all.take(0) =~= Seq::empty());
        while i < tokens.len()
            invariant
                i <= tokens@.len() == all.len(),
                all == tokens.deep_view(),
                self@ == start.offering(all.take(i as int)),
            decreases tokens@.len() - i,
        {
            assert(all.take(i + 1).drop_last() =~= all.take(i as int));
            let (name, value) = split_value(&tokens[i]);
            self.available.insert(name, value);
            i = i + 1;
        }
        assert(all.take(all.len() as int) =~= all);
    }

    /// Forget capabilities that the server withdrew with `CAP DEL`.
    pub fn withdraw(&mut self, list: &str)
        ensures
            final(self)@ == old(self)@.withdrawing(words(list@)),
    {
        let tokens = split_words(list);
        let ghost all = tokens.deep_view();
        let ghost start = self@;
        let mut i: usize = 0;
        assert(all.take(0) =~= Seq::empty());
        while i < tokens.len()
            invariant
                i <= tokens@.len() == all.len(),
                all == tokens.deep_view(),
                self@ == start.withdrawing(all.take(i as int)),
            decreases tokens@.len() - i,
        {
            assert(all.take(i + 1).drop_last() =~= all.take(i as int));
            let (name, _value) = split_value(&tokens[i]);
            self.available.remove(&name);
            self.acknowledged.remove(&name);
            i = i + 1;
        }
        assert(all.take(all.len() as int) =~= all);
    }

    /// What we want of what the server offers and have not asked for yet.
    pub fn to_request(&self) -> (r: Vec<String>)
        ensures
            r.deep_view() == self@.to_request(),
    {
        let names = wanted_caps();
        let ghost all = wanted();
        let mut out: Vec<String> = Vec::new();
        let mut i: usize = 0;
        proof {
            reveal(Seq::filter);
        }
        assert(out.deep_view() =~= all.take(0).filter(self@.wants()));
        while i < names.len()
            invariant
                i <= names@.len() == all.len(),
                all == wanted(),
                names@.map_values(|name: &'static str| name@) == all,
                out.deep_view() == all.take(i as int).filter(self@.wants()),
            decreases names@.len() - i,
        {
            proof {
                reveal(Seq::filter);
            }
            assert(all.take(i + 1).drop_last() =~= all.take(i as int));
            let ghost had = out.deep_view();
            let name: String = names[i].to_owned();
            assert(name@ == all[i as int]);
            if self.available.contains_key(&name) && !self.acknowledged.contains_key(&name)
                && !contains_string(&self.pending, &name) {
                out.push(name);
                assert(out.deep_view() =~= had.push(name@));
            }
            i = i + 1;
        }
        assert(all.take(all.len() as int) =~= all);
        out
    }

    /// Note that we sent a `CAP REQ` for these.
    pub fn requested(&mut self, names: &Vec<String>)
        ensures
            final(self)@ == (CapsView {
                pending: old(self)@.pending + names.deep_view(),
                ..old(self)@
            }),
    {
        let ghost start = self@;
        let ghost all = names.deep_view();
        let mut i: usize = 0;
        assert(start.pending + all.take(0) =~= start.pending);
        while i < names.len()
            invariant
                i <= names@.len() == all.len(),
                all == names.deep_view(),
                self@ == (CapsView { pending: start.pending + all.take(i as int), ..start }),
            decreases names@.len() - i,
        {
            let ghost had = self.pending.deep_view();
            self.pending.push(names[i].clone());
            assert(self.pending.deep_view() =~= had.push(all[i as int]));
            i = i + 1;
            assert(self.pending.deep_view() =~= start.pending + all.take(i as int));
        }
        assert(all.take(all.len() as int) =~= all);
    }

    fn acknowledge_one(&mut self, token: &str) -> (r: Option<String>)
        ensures
            final(self)@ == old(self)@.acking(token@),
            r.deep_view() == (if without_prefix(token@, '-') is Some {
                None
            } else {
                Some(valued(token@).0)
            }),
    {
        if let Some(name) = strip_char(token, '-') {
            self.acknowledged.remove(&name);
            drop_string(&mut self.pending, &name);
            return None;
        }
        let (name, value) = split_value(token);
        let value = match value {
            Some(value) => Some(value),
            None => match self.available.get(&name) {
                Some(Some(value)) => Some(value.clone()),
                _ => None,
            },
        };
        self.acknowledged.insert(name.clone(), value);
        drop_string(&mut self.pending, &name);
        Some(name)
    }

    /// Apply a `CAP ACK`, returning the names that were acknowledged.
    ///
    /// A name may come with a `-` before it, meaning that the server dropped a capability we held.
    pub fn acknowledge(&mut self, list: &str) -> (r: Vec<String>)
        ensures
            final(self)@ == old(self)@.acknowledging(words(list@)),
            r.deep_view() == granted(words(list@)),
    {
        let tokens = split_words(list);
        let ghost all = tokens.deep_view();
        let ghost start = self@;
        let mut acked: Vec<String> = Vec::new();
        let mut i: usize = 0;
        assert(all.take(0) =~= Seq::empty());
        assert(acked.deep_view() =~= Seq::empty());
        while i < tokens.len()
            invariant
                i <= tokens@.len() == all.len(),
                all == tokens.deep_view(),
                self@ == start.acknowledging(all.take(i as int)),
                acked.deep_view() == granted(all.take(i as int)),
            decreases tokens@.len() - i,
        {
            assert(all.take(i + 1).drop_last() =~= all.take(i as int));
            if let Some(name) = self.acknowledge_one(&tokens[i]) {
                let ghost had = acked.deep_view();
                acked.push(name);
                assert(acked.deep_view() =~= had.push(name@));
            }
            i = i + 1;
        }
        assert(all.take(all.len() as int) =~= all);
        acked
    }

    /// Apply a `CAP NAK`. Nothing is enabled, we only stop waiting.
    pub fn reject(&mut self, list: &str)
        ensures
            final(self)@ == old(self)@.rejecting(words(list@)),
    {
        let tokens = split_words(list);
        let ghost all = tokens.deep_view();
        let ghost start = self@;
        let mut i: usize = 0;
        assert(all.take(0) =~= Seq::empty());
        while i < tokens.len()
            invariant
                i <= tokens@.len() == all.len(),
                all == tokens.deep_view(),
                self@ == start.rejecting(all.take(i as int)),
            decreases tokens@.len() - i,
        {
            assert(all.take(i + 1).drop_last() =~= all.take(i as int));
            let (name, _value) = split_value(&tokens[i]);
            drop_string(&mut self.pending, &name);
            i = i + 1;
        }
        assert(all.take(all.len() as int) =~= all);
    }

    /// True when we hold this capability.
    pub fn has(&self, name: &str) -> (r: bool)
        ensures
            r == self@.acknowledged.contains_key(name@),
    {
        self.acknowledged.contains_key(&name.to_owned())
    }

    /// The value that the server gave a capability, such as the SASL mechanism list.
    pub fn value(&self, name: &str) -> (r: Option<&str>)
        ensures
            match r {
                Some(value) => self@.acknowledged.contains_key(name@)
                    && self@.acknowledged[name@] == Some(value@),
                None => !self@.acknowledged.contains_key(name@) || self@.acknowledged[name@] is None,
            },
    {
        match self.acknowledged.get(&name.to_owned()) {
            Some(Some(value)) => Some(value.as_str()),
            _ => None,
        }
    }

    /// True when the server advertised this capability, whether or not we hold it.
    pub fn offers(&self, name: &str) -> (r: bool)
        ensures
            r == self@.available.contains_key(name@),
    {
        self.available.contains_key(&name.to_owned())
    }

    /// True when every requested capability has been answered.
    pub fn settled(&self) -> (r: bool)
        ensures
            r == (self@.pending.len() == 0),
    {
        self.pending.len() == 0
    }

    /// Everything we hold, sorted by name.
    pub fn enabled(&self) -> (r: Vec<Capability>)
        ensures
            r.deep_view() == self@.enabled(),
            self@.acknowledged.dom().finite(),
            enumerates(in_order(self@.acknowledged.dom()), self@.acknowledged.dom()),
    {
        let n: usize = self.acknowledged.len();
        proof {
            lemma_in_order(in_order(self@.acknowledged.dom()), self@.acknowledged.dom());
        }
        let ghost all = self@.enabled();
        let mut out: Vec<Capability> = Vec::new();
        let mut i: usize = 0;
        assert(out.deep_view() =~= all.take(0));
        while i < n
            invariant
                i <= n == all.len(),
                n == self@.acknowledged.len(),
                all == self@.enabled(),
                out.deep_view() == all.take(i as int),
            decreases n - i,
        {
            let name = self.acknowledged.key_at(i).clone();
            let value = match self.acknowledged.value_at(i) {
                Some(value) => Some(value.clone()),
                None => None,
            };
            let ghost had = out.deep_view();
            let one = Capability { name, value };
            assert(one@ == all[i as int]);
            out.push(one);
            assert(out.deep_view() =~= had.push(one@));
            i = i + 1;
            assert(out.deep_view() =~= all.take(i as int));
        }
        assert(all.take(all.len() as int) =~= all);
        out
    }
}

/// Once what there is to ask for has been asked for, there is nothing more to ask for.
pub proof fn law_asks_once(caps: CapsView)
    ensures
        (CapsView { pending: caps.pending + caps.to_request(), ..caps }).to_request() == Seq::<
            Seq<char>,
        >::empty(),
{
    let after = CapsView { pending: caps.pending + caps.to_request(), ..caps };
    let asked = caps.to_request();
    let again = after.to_request();
    if again.len() > 0 {
        let name = again[0];
        wanted().lemma_filter_pred(after.wants(), 0);
        wanted().lemma_filter_contains_rev(after.wants(), name);
        assert(again.contains(name));
        assert(wanted().contains(name));
        assert((caps.wants())(name)) by {
            if caps.pending.contains(name) {
                let k = caps.pending.index_of(name);
                assert(after.pending[k] == name);
            }
        }
        let k = wanted().index_of(name);
        wanted().lemma_filter_contains(caps.wants(), k);
        let m = asked.index_of(name);
        assert(after.pending[caps.pending.len() + m] == name);
        assert(false);
    }
    assert(again =~= Seq::empty());
}

/// What is held is never asked for again.
pub proof fn law_never_asks_for_what_is_held(caps: CapsView, name: Seq<char>)
    requires
        caps.acknowledged.contains_key(name),
    ensures
        !caps.to_request().contains(name),
{
    if caps.to_request().contains(name) {
        let k = caps.to_request().index_of(name);
        wanted().lemma_filter_pred(caps.wants(), k);
    }
}

/// An answer to a name ends the wait for it, and for no other: what is waited for after it is what
/// was waited for before, but for that name.
pub proof fn law_answer_ends_the_wait(caps: CapsView, name: Seq<char>, other: Seq<char>)
    ensures
        caps.answered(name).pending.contains(other) <==> caps.pending.contains(other) && other
            != name,
{
    let keep = other_text(name);
    if caps.answered(name).pending.contains(other) {
        let k = caps.answered(name).pending.index_of(other);
        caps.pending.lemma_filter_pred(keep, k);
        caps.pending.lemma_filter_contains_rev(keep, other);
    }
    if caps.pending.contains(other) && other != name {
        let k = caps.pending.index_of(other);
        caps.pending.lemma_filter_contains(keep, k);
    }
}

/// A capability that the server withdraws is neither on offer nor held.
pub proof fn law_withdrawn_is_gone(caps: CapsView, tokens: Seq<Seq<char>>, i: int)
    requires
        0 <= i < tokens.len(),
    ensures
        !caps.withdrawing(tokens).available.contains_key(valued(tokens[i]).0),
        !caps.withdrawing(tokens).acknowledged.contains_key(valued(tokens[i]).0),
    decreases tokens.len(),
{
    if i < tokens.len() - 1 {
        law_withdrawn_is_gone(caps, tokens.drop_last(), i);
    }
}

/// What is held is listed by name, in order and each once: a name is listed exactly when it is
/// held, with the value that it was granted with.
pub proof fn law_enabled_is_sorted(caps: CapsView, name: Seq<char>)
    requires
        caps.acknowledged.dom().finite(),
    ensures
        forall|i: int, j: int|
            0 <= i < j < caps.enabled().len() ==> (#[trigger] caps.enabled()[i]).name.precedes(
                (#[trigger] caps.enabled()[j]).name,
            ),
        (exists|i: int| 0 <= i < caps.enabled().len() && (#[trigger] caps.enabled()[i]).name == name)
            <==> caps.acknowledged.contains_key(name),
        forall|i: int|
            0 <= i < caps.enabled().len() && (#[trigger] caps.enabled()[i]).name == name
                ==> caps.enabled()[i].value == caps.acknowledged[name],
{
    let order = in_order(caps.acknowledged.dom());
    lemma_has_order(caps.acknowledged.dom());
    assert forall|i: int, j: int| 0 <= i < j < caps.enabled().len() implies (
    #[trigger] caps.enabled()[i]).name.precedes((#[trigger] caps.enabled()[j]).name) by {
        assert(order[i].precedes(order[j]));
    }
    assert forall|i: int| 0 <= i < order.len() implies caps.acknowledged.contains_key(
        #[trigger] order[i],
    ) by {
        assert(order.contains(order[i]));
    }
    if caps.acknowledged.contains_key(name) {
        assert(order.contains(name));
        let i = order.index_of(name);
        assert(caps.enabled()[i].name == name);
    }
}

} // verus!
