//! The Obby extensions: link previews, the commands we may use, invitations and bots.

use vstd::prelude::*;

use crate::sorted::{in_order, SortedMap, SortedSet};
use crate::text::{
    lower, parse_unsigned, same, same_ignoring_case, split_words, strip_char, to_upper, unsigned,
    upper, without_prefix, words,
};
use crate::wire::{owned, Line, LineView};

verus! {

/// A preview of a link, built by the server and attached to the message that holds the link.
#[derive(Debug, Clone, PartialEq, Eq)]
pub struct LinkPreview {
    /// The page's title.
    pub title: String,
    /// A description of the page, when it has one.
    pub snippet: Option<String>,
    /// An image, when there is one.
    pub image: Option<String>,
}

/// What a preview says.
#[verifier::ext_equal]
pub struct LinkPreviewView {
    pub title: Seq<char>,
    pub snippet: Option<Seq<char>>,
    pub image: Option<Seq<char>>,
}

impl View for LinkPreview {
    type V = LinkPreviewView;

    open spec fn view(&self) -> LinkPreviewView {
        LinkPreviewView {
            title: self.title@,
            snippet: self.snippet.deep_view(),
            image: self.image.deep_view(),
        }
    }
}

impl DeepView for LinkPreview {
    type V = LinkPreviewView;

    open spec fn deep_view(&self) -> LinkPreviewView {
        self@
    }
}

/// The preview on a line, with the message that it describes. A preview needs a title and a
/// message.
pub open spec fn preview_on(line: LineView) -> Option<(Seq<char>, LinkPreviewView)> {
    match (line.tag("obsidianirc/link-preview-title"@), line.reply_tag()) {
        (Some(title), Some(msgid)) => Some(
            (
                msgid,
                LinkPreviewView {
                    title,
                    snippet: line.tag("obsidianirc/link-preview-snippet"@),
                    image: line.tag("obsidianirc/link-preview-meta"@),
                },
            ),
        ),
        _ => None,
    }
}

impl LinkPreview {
    /// Read a preview off a TAGMSG, with the message it describes.
    pub fn parse(line: &Line) -> (r: Option<(String, Self)>)
        ensures
            r.deep_view() == preview_on(line@),
    {
        let title = match line.tag("obsidianirc/link-preview-title") {
            Some(title) => title.to_owned(),
            None => return None,
        };
        let msgid = match line.reply_tag() {
            Some(msgid) => msgid.to_owned(),
            None => return None,
        };
        let snippet = owned(line.tag("obsidianirc/link-preview-snippet"));
        let image = owned(line.tag("obsidianirc/link-preview-meta"));
        Some((msgid, LinkPreview { title, snippet, image }))
    }
}

/// The words of all the parameters, in order.
pub open spec fn all_words(params: Seq<Seq<char>>) -> Seq<Seq<char>>
    decreases params.len(),
{
    if params.len() == 0 {
        Seq::empty()
    } else {
        all_words(params.drop_last()) + words(params.last())
    }
}

/// Split the parameters from `from` on into words.
pub(crate) fn words_of(params: &Vec<String>, from: usize) -> (r: Vec<String>)
    requires
        from <= params@.len(),
    ensures
        r.deep_view() == all_words(params.deep_view().skip(from as int)),
{
    let mut out: Vec<String> = Vec::new();
    let mut i: usize = from;
    let ghost all = params.deep_view().skip(from as int);
    assert(out.deep_view() =~= all_words(all.take(0)));
    while i < params.len()
        invariant
            from <= i <= params@.len(),
            all == params.deep_view().skip(from as int),
            out.deep_view() == all_words(all.take(i - from)),
        decreases params@.len() - i,
    {
        let ghost had = out.deep_view();
        let mut more = split_words(&params[i]);
        let ghost added = more.deep_view();
        out.append(&mut more);
        assert(out.deep_view() =~= had + added);
        i = i + 1;
        assert(all.take(i - from).drop_last() =~= all.take(i - from - 1));
    }
    assert(all.take(all.len() as int) =~= all);
    out
}

/// What the set of allowed commands is after one `+name` or `-name`. Names are held in upper case.
pub open spec fn allowed_with(allowed: Set<Seq<char>>, token: Seq<char>) -> Set<Seq<char>> {
    match without_prefix(token, '+') {
        Some(name) => allowed.insert(upper(name)),
        None => match without_prefix(token, '-') {
            Some(name) => allowed.remove(upper(name)),
            None => allowed,
        },
    }
}

/// What the set of allowed commands is after these tokens, one after another.
pub open spec fn allowed_after(
    allowed: Set<Seq<char>>,
    tokens: Seq<Seq<char>>,
) -> Set<Seq<char>>
    decreases tokens.len(),
{
    if tokens.len() == 0 {
        allowed
    } else {
        allowed_with(allowed_after(allowed, tokens.drop_last()), tokens.last())
    }
}

/// The commands that the server says we may use.
#[derive(Debug, Clone)]
pub struct Commands {
    available: SortedSet<String>,
}

impl View for Commands {
    type V = Set<Seq<char>>;

    closed spec fn view(&self) -> Set<Seq<char>> {
        self.available@
    }
}

impl Default for Commands {
    fn default() -> (r: Self)
        ensures
            r@ == Set::<Seq<char>>::empty(),
    {
        Commands { available: SortedSet::new() }
    }
}

impl Commands {
    /// Know about no commands yet.
    pub fn new() -> (r: Self)
        ensures
            r@ == Set::<Seq<char>>::empty(),
    {
        Commands { available: SortedSet::new() }
    }

    /// Apply the `+name` and `-name` tokens of one `CMDSLIST` line.
    pub fn apply(&mut self, line: &Line)
        ensures
            final(self)@ == allowed_after(old(self)@, all_words(line@.params)),
    {
        let tokens = words_of(&line.params, 0);
        let ghost all = tokens.deep_view();
        let ghost start = self@;
        assert(line@.params.skip(0) =~= line@.params);
        let mut i: usize = 0;
        while i < tokens.len()
            invariant
                i <= tokens@.len(),
                all == tokens.deep_view(),
                self@ == allowed_after(start, all.take(i as int)),
            decreases tokens@.len() - i,
        {
            let token = &tokens[i];
            assert(all.take(i + 1).drop_last() =~= all.take(i as int));
            assert(all.take(i + 1).last() == token@);
            if let Some(name) = strip_char(token, '+') {
                let _ = self.available.insert(to_upper(&name));
            } else if let Some(name) = strip_char(token, '-') {
                let _ = self.available.remove(&to_upper(&name));
            }
            i = i + 1;
        }
        assert(all.take(all.len() as int) =~= all);
    }

    /// True when the server says we may use this command.
    pub fn contains(&self, name: &str) -> (r: bool)
        ensures
            r == self@.contains(upper(name@)),
    {
        self.available.contains(&to_upper(name))
    }

    /// Every command we may use, in name order.
    pub fn iter(&self) -> (r: Vec<String>)
        ensures
            r.deep_view() == in_order(self@),
    {
        let mut out: Vec<String> = Vec::new();
        let n: usize = self.available.len();
        let mut i: usize = 0;
        let ghost order = in_order(self@);
        while i < n
            invariant
                i <= n == order.len(),
                n == self.available@.len(),
                order == in_order(self.available@),
                out.deep_view() == order.take(i as int),
            decreases n - i,
        {
            let ghost had = out.deep_view();
            let name = self.available.at(i).clone();
            out.push(name);
            assert(out.deep_view() =~= had.push(name@));
            i = i + 1;
            assert(out.deep_view() =~= order.take(i as int));
        }
        assert(order.take(n as int) =~= order);
        out
    }

    /// How many commands we may use.
    pub fn len(&self) -> (r: usize)
        ensures
            r == self@.len(),
            self@.finite(),
    {
        self.available.len()
    }

    /// True when the server has told us nothing yet.
    pub fn is_empty(&self) -> (r: bool)
        ensures
            r == (self@ == Set::<Seq<char>>::empty()),
    {
        self.available.is_empty()
    }
}

/// An invitation link to the network or to one channel.
#[derive(Debug, Clone, PartialEq, Eq)]
pub struct Invitation {
    /// The identifier used to delete it.
    pub share_id: String,
    /// The channel it joins, or nothing when it invites to the network.
    pub channel: Option<String>,
    /// The link itself.
    pub url: String,
    /// When it was made, as the server spells it.
    pub created: Option<String>,
    /// How many people have used it.
    pub redeemed: u32,
    /// What it is for.
    pub description: Option<String>,
}

/// What an invitation says.
#[verifier::ext_equal]
pub struct InvitationView {
    pub share_id: Seq<char>,
    pub channel: Option<Seq<char>>,
    pub url: Seq<char>,
    pub created: Option<Seq<char>>,
    pub redeemed: u32,
    pub description: Option<Seq<char>>,
}

impl View for Invitation {
    type V = InvitationView;

    open spec fn view(&self) -> InvitationView {
        InvitationView {
            share_id: self.share_id@,
            channel: self.channel.deep_view(),
            url: self.url@,
            created: self.created.deep_view(),
            redeemed: self.redeemed,
            description: self.description.deep_view(),
        }
    }
}

impl DeepView for Invitation {
    type V = InvitationView;

    open spec fn deep_view(&self) -> InvitationView {
        self@
    }
}

/// The channel that an invitation names. A `*` stands for the network.
pub open spec fn invited_channel(value: Seq<char>) -> Option<Seq<char>> {
    if value == "*"@ {
        None
    } else {
        Some(value)
    }
}

/// The invitation that a reply to a create carries: `<share-id> <channel|*> :<url>`.
pub open spec fn created_on(line: LineView) -> Option<InvitationView> {
    match (line.param(0), line.param(1), line.param(2)) {
        (Some(share_id), Some(channel), Some(url)) => if lower(share_id) == lower("ENTRY"@) {
            None
        } else {
            Some(
                InvitationView {
                    share_id,
                    channel: invited_channel(channel),
                    url,
                    created: None,
                    redeemed: 0,
                    description: None,
                },
            )
        },
        _ => None,
    }
}

/// The count that a parameter gives, zero where it gives none that can be read.
pub open spec fn count_or_zero(value: Option<Seq<char>>) -> u32 {
    match value {
        Some(text) => match unsigned(text, u32::MAX as nat) {
            Some(n) => n as u32,
            None => 0,
        },
        None => 0,
    }
}

/// The invitation that one line of a listing carries: `ENTRY <share-id> <channel|*> <created>
/// <redeemed> <url> [:<description>]`.
pub open spec fn entry_on(line: LineView) -> Option<InvitationView> {
    match (line.param(0), line.param(1), line.param(2), line.param(3), line.param(5)) {
        (Some(verb), Some(share_id), Some(channel), Some(created), Some(url)) => if lower(verb)
            != lower("ENTRY"@) {
            None
        } else {
            Some(
                InvitationView {
                    share_id,
                    channel: invited_channel(channel),
                    url,
                    created: Some(created),
                    redeemed: count_or_zero(line.param(4)),
                    description: line.param(6),
                },
            )
        },
        _ => None,
    }
}

fn channel_or_network(value: &str) -> (r: Option<String>)
    ensures
        r.deep_view() == invited_channel(value@),
{
    if same(value, "*") {
        None
    } else {
        Some(value.to_owned())
    }
}

impl Invitation {
    /// Read the `INVITELINK` reply that follows a create.
    pub fn parse_created(line: &Line) -> (r: Option<Self>)
        ensures
            r.deep_view() == created_on(line@),
    {
        match (line.param(0), line.param(1), line.param(2)) {
            (Some(share_id), Some(channel), Some(url)) => {
                if same_ignoring_case(share_id, "ENTRY") {
                    return None;
                }
                Some(
                    Invitation {
                        share_id: share_id.to_owned(),
                        channel: channel_or_network(channel),
                        url: url.to_owned(),
                        created: None,
                        redeemed: 0,
                        description: None,
                    },
                )
            },
            _ => None,
        }
    }

    /// Read one line of an `INVITELINK LIST` reply. A count that cannot be read is zero, which is
    /// no reason to lose the invitation.
    pub fn parse_entry(line: &Line) -> (r: Option<Self>)
        ensures
            r.deep_view() == entry_on(line@),
    {
        match (line.param(0), line.param(1), line.param(2), line.param(3), line.param(5)) {
            (Some(verb), Some(share_id), Some(channel), Some(created), Some(url)) => {
                if !same_ignoring_case(verb, "ENTRY") {
                    return None;
                }
                let redeemed: u32 = match line.param(4) {
                    Some(text) => match parse_unsigned(text, 0xffff_ffff) {
                        Some(n) => n as u32,
                        None => 0,
                    },
                    None => 0,
                };
                Some(
                    Invitation {
                        share_id: share_id.to_owned(),
                        channel: channel_or_network(channel),
                        url: url.to_owned(),
                        created: Some(created.to_owned()),
                        redeemed,
                        description: owned(line.param(6)),
                    },
                )
            },
            _ => None,
        }
    }
}

/// What the server knows about a bot in a channel.
#[derive(Debug, Clone, PartialEq, Eq)]
pub struct Bot {
    /// The bot's nick.
    pub nick: String,
    /// The identifier the server gave it.
    pub id: Option<String>,
    /// True when an operator configured this bot, rather than it registering itself.
    pub from_config: bool,
    /// The commands it offers.
    pub commands: Vec<BotCommand>,
}

/// One command a bot offers.
#[derive(Debug, Clone, PartialEq, Eq)]
pub struct BotCommand {
    /// What to type, without its leading slash.
    pub name: String,
    /// What it does.
    pub description: Option<String>,
}

/// What a bot's command says.
#[verifier::ext_equal]
pub struct BotCommandView {
    pub name: Seq<char>,
    pub description: Option<Seq<char>>,
}

/// What is known of a bot.
#[verifier::ext_equal]
pub struct BotView {
    pub nick: Seq<char>,
    pub id: Option<Seq<char>>,
    pub from_config: bool,
    pub commands: Seq<BotCommandView>,
}

impl View for BotCommand {
    type V = BotCommandView;

    open spec fn view(&self) -> BotCommandView {
        BotCommandView { name: self.name@, description: self.description.deep_view() }
    }
}

impl DeepView for BotCommand {
    type V = BotCommandView;

    open spec fn deep_view(&self) -> BotCommandView {
        self@
    }
}

impl View for Bot {
    type V = BotView;

    open spec fn view(&self) -> BotView {
        BotView {
            nick: self.nick@,
            id: self.id.deep_view(),
            from_config: self.from_config,
            commands: self.commands.deep_view(),
        }
    }
}

impl DeepView for Bot {
    type V = BotView;

    open spec fn deep_view(&self) -> BotView {
        self@
    }
}

impl Default for Bot {
    fn default() -> (r: Self)
        ensures
            r@ == (BotView {
                nick: Seq::empty(),
                id: None,
                from_config: false,
                commands: Seq::empty(),
            }),
    {
        let r = Bot { nick: String::new(), id: None, from_config: false, commands: Vec::new() };
        assert(r@.commands =~= Seq::empty());
        r
    }
}

impl Default for BotCommand {
    fn default() -> (r: Self)
        ensures
            r@ == (BotCommandView { name: Seq::empty(), description: None }),
    {
        BotCommand { name: String::new(), description: None }
    }
}

/// The command names that a bot which registered itself may not claim.
pub open spec fn privileged_commands() -> Seq<Seq<char>> {
    seq![
        "oper"@,
        "identify"@,
        "nickserv"@,
        "chanserv"@,
        "ns"@,
        "cs"@,
        "register"@,
        "pass"@,
        "auth"@,
        "login"@,
    ]
}

/// True for a privileged name, however it is cased.
pub open spec fn privileged(name: Seq<char>) -> bool {
    exists|i: int|
        0 <= i < privileged_commands().len() && lower(name) == lower(
            #[trigger] privileged_commands()[i],
        )
}

/// True when this command name may only be claimed by a bot that an operator configured.
pub fn is_privileged(name: &str) -> (r: bool)
    ensures
        r == privileged(name@),
{
    let ghost list = privileged_commands();
    let r = same_ignoring_case(name, "oper") || same_ignoring_case(name, "identify")
        || same_ignoring_case(name, "nickserv") || same_ignoring_case(name, "chanserv")
        || same_ignoring_case(name, "ns") || same_ignoring_case(name, "cs") || same_ignoring_case(
        name,
        "register",
    ) || same_ignoring_case(name, "pass") || same_ignoring_case(name, "auth")
        || same_ignoring_case(name, "login");
    assert(list[0] == "oper"@ && list[1] == "identify"@ && list[2] == "nickserv"@ && list[3]
        == "chanserv"@ && list[4] == "ns"@ && list[5] == "cs"@ && list[6] == "register"@ && list[7]
        == "pass"@ && list[8] == "auth"@ && list[9] == "login"@);
    r
}

/// The commands that a bot which registered itself may offer: those without a privileged name.
pub open spec fn permitted(commands: Seq<BotCommandView>) -> Seq<BotCommandView> {
    commands.filter(|c: BotCommandView| !privileged(c.name))
}

/// The bots we know about, keyed by their folded nick.
#[derive(Debug, Clone)]
pub struct Bots {
    known: SortedMap<String, Bot>,
}

impl View for Bots {
    type V = Map<Seq<char>, BotView>;

    closed spec fn view(&self) -> Map<Seq<char>, BotView> {
        self.known@
    }
}

impl Default for Bots {
    fn default() -> (r: Self)
        ensures
            r@ == Map::<Seq<char>, BotView>::empty(),
    {
        Bots { known: SortedMap::new() }
    }
}

impl Bots {
    /// Know about no bots.
    pub fn new() -> (r: Self)
        ensures
            r@ == Map::<Seq<char>, BotView>::empty(),
    {
        Bots { known: SortedMap::new() }
    }

    /// Record a bot the server told us about.
    pub fn insert(&mut self, key: String, bot: Bot)
        ensures
            final(self)@ == old(self)@.insert(key@, bot@),
    {
        let _ = self.known.insert(key, bot);
    }

    /// Forget a bot.
    pub fn remove(&mut self, key: &str) -> (r: Option<Bot>)
        ensures
            final(self)@ == old(self)@.remove(key@),
            r.deep_view() == (if old(self)@.contains_key(key@) {
                Some(old(self)@[key@])
            } else {
                None
            }),
    {
        self.known.remove(&key.to_owned())
    }

    /// A bot we know about.
    pub fn get(&self, key: &str) -> (r: Option<&Bot>)
        ensures
            match r {
                Some(bot) => self@.contains_key(key@) && bot@ == self@[key@],
                None => !self@.contains_key(key@),
            },
    {
        self.known.get(&key.to_owned())
    }

    /// Every bot with its key, in key order.
    pub fn iter(&self) -> (r: Vec<(&String, &Bot)>)
        ensures
            r.deep_view() == in_order(self@.dom()).map_values(|k: Seq<char>| (k, self@[k])),
    {
        let r = self.known.iter();
        assert(r.deep_view() =~= in_order(self@.dom()).map_values(|k: Seq<char>| (k, self@[k])));
        r
    }

    /// How many bots we know about.
    pub fn len(&self) -> (r: usize)
        ensures
            r == self@.len(),
            self@.dom().finite(),
    {
        self.known.len()
    }

    /// True when we know of none.
    pub fn is_empty(&self) -> (r: bool)
        ensures
            r == (self@ == Map::<Seq<char>, BotView>::empty()),
    {
        self.known.is_empty()
    }

    /// Record the commands a bot offers, dropping any name it is not entitled to. A bot we were
    /// never told about is refused.
    pub fn set_commands(&mut self, key: &str, commands: Vec<BotCommand>) -> (r: bool)
        ensures
            r == old(self)@.contains_key(key@),
            final(self)@ == (if r {
                let bot = old(self)@[key@];
                old(self)@.insert(
                    key@,
                    (BotView {
                        commands: if bot.from_config {
                            commands.deep_view()
                        } else {
                            permitted(commands.deep_view())
                        },
                        ..bot
                    }),
                )
            } else {
                old(self)@
            }),
    {
        match self.known.get_mut(&key.to_owned()) {
            None => false,
            Some(bot) => {
                if bot.from_config {
                    bot.commands = commands;
                } else {
                    bot.commands = keep_permitted(commands);
                }
                true
            },
        }
    }
}

fn keep_permitted(commands: Vec<BotCommand>) -> (r: Vec<BotCommand>)
    ensures
        r.deep_view() == permitted(commands.deep_view()),
{
    let ghost all = commands.deep_view();
    let ghost allowed = |c: BotCommandView| !privileged(c.name);
    let mut out: Vec<BotCommand> = Vec::new();
    let mut i: usize = 0;
    assert(out.deep_view() =~= all.take(0).filter(allowed)) by {
        reveal(Seq::filter);
    }
    while i < commands.len()
        invariant
            i <= commands@.len(),
            all == commands.deep_view(),
            allowed == |c: BotCommandView| !privileged(c.name),
            out.deep_view() == all.take(i as int).filter(allowed),
        decreases commands@.len() - i,
    {
        let ghost had = out.deep_view();
        let command = BotCommand {
            name: commands[i].name.clone(),
            description: commands[i].description.clone(),
        };
        assert(command.deep_view() == all[i as int]);
        proof {
            reveal(Seq::filter);
            assert(all.take(i + 1).drop_last() =~= all.take(i as int));
        }
        if !is_privileged(&command.name) {
            out.push(command);
            assert(out.deep_view() =~= had.push(all[i as int]));
        }
        i = i + 1;
    }
    assert(all.take(all.len() as int) =~= all);
    out
}

/// A list of commands may be split over several lines: what they do adds up.
pub proof fn law_command_lists_add_up(
    allowed: Set<Seq<char>>,
    first: Seq<Seq<char>>,
    second: Seq<Seq<char>>,
)
    ensures
        allowed_after(allowed, first + second) == allowed_after(
            allowed_after(allowed, first),
            second,
        ),
    decreases second.len(),
{
    let all = first + second;
    if second.len() == 0 {
        assert(all =~= first);
    } else {
        assert(all.drop_last() =~= first + second.drop_last());
        law_command_lists_add_up(allowed, first, second.drop_last());
    }
}

/// True when a token allows or withdraws this command.
pub open spec fn concerns(token: Seq<char>, name: Seq<char>) -> bool {
    &&& token.len() > 0
    &&& token[0] == '+' || token[0] == '-'
    &&& upper(token.skip(1)) == name
}

/// The last token that concerns a command decides whether it is allowed, and where none does it
/// stays as it was. Names are held in upper case.
pub proof fn law_last_token_decides(
    allowed: Set<Seq<char>>,
    tokens: Seq<Seq<char>>,
    name: Seq<char>,
)
    ensures
        (forall|i: int| 0 <= i < tokens.len() ==> !concerns(#[trigger] tokens[i], name)) ==> (
        allowed_after(allowed, tokens).contains(name) <==> allowed.contains(name)),
        forall|i: int|
            0 <= i < tokens.len() && concerns(#[trigger] tokens[i], name) && (forall|j: int|
                i < j < tokens.len() ==> !concerns(#[trigger] tokens[j], name)) ==> (allowed_after(
                allowed,
                tokens,
            ).contains(name) <==> tokens[i][0] == '+'),
        (forall|held: Seq<char>| #[trigger] allowed.contains(held) ==> upper(held) == held)
            && allowed_after(allowed, tokens).contains(name) ==> upper(name) == name,
    decreases tokens.len(),
{
    if tokens.len() > 0 {
        let rest = tokens.drop_last();
        let last = tokens.last();
        law_last_token_decides(allowed, rest, name);
        assert(tokens[tokens.len() - 1] == last);
        if last.len() > 0 {
            let named = last.skip(1);
            assert(upper(upper(named)) =~= upper(named));
        }
        assert forall|i: int|
            0 <= i < tokens.len() && concerns(#[trigger] tokens[i], name) && (forall|j: int|
                i < j < tokens.len() ==> !concerns(#[trigger] tokens[j], name)) implies (
        allowed_after(allowed, tokens).contains(name) <==> tokens[i][0] == '+') by {
            if i < rest.len() {
                assert(rest[i] == tokens[i]);
                assert forall|j: int| i < j < rest.len() implies !concerns(
                    #[trigger] rest[j],
                    name,
                ) by {
                    assert(rest[j] == tokens[j]);
                }
                assert(!concerns(last, name));
            }
        }
        if forall|i: int| 0 <= i < tokens.len() ==> !concerns(#[trigger] tokens[i], name) {
            assert forall|i: int| 0 <= i < rest.len() implies !concerns(
                #[trigger] rest[i],
                name,
            ) by {
                assert(rest[i] == tokens[i]);
            }
        }
    }
}

/// A bot that registered itself never claims a privileged command, however it is cased, and loses
/// none of the others.
pub proof fn law_bot_claims_nothing_privileged(commands: Seq<BotCommandView>, c: BotCommandView)
    ensures
        permitted(commands).contains(c) <==> commands.contains(c) && !privileged(c.name),
    decreases commands.len(),
{
    reveal(Seq::filter);
    if commands.len() > 0 {
        let rest = commands.drop_last();
        let last = commands.last();
        law_bot_claims_nothing_privileged(rest, c);
        assert(commands =~= rest.push(last));
        assert(rest.push(last)[rest.len() as int] == last);
        if rest.contains(c) {
            assert(commands[rest.index_of(c)] == c);
        }
        if commands.contains(c) && c != last {
            assert(rest[commands.index_of(c)] == c);
        }
        let had = permitted(rest);
        if !privileged(last.name) {
            assert(permitted(commands) == had.push(last));
            assert(had.push(last)[had.len() as int] == last);
            if had.contains(c) {
                assert(had.push(last)[had.index_of(c)] == c);
            }
            if permitted(commands).contains(c) && c != last {
                assert(had[permitted(commands).index_of(c)] == c);
            }
        }
    }
}

} // verus!
