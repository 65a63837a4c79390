//! What a server says about itself: how it folds case, what starts a channel name, which modes
//! take an argument.

use vstd::prelude::*;

use crate::json::hex_digit;
use crate::text::{
    before_first, contains_char, cut, fields, first_char, parse_unsigned, same, unsigned, without_prefix,
};
use crate::wire::{default_prefix, prefix_modes, prefix_of, CaseFolded, Casemapping, Prefix};

verus! {

/// `obby_proto::Isupport` holds the tokens that a server advertised, and what they drive.
#[verifier::external_type_specification]
#[verifier::external_body]
pub struct ExProtoIsupport(obby_proto::Isupport);

/// The tokens in force in an `obby_proto::Isupport`, each with its value.
pub uninterp spec fn advertised(tokens: obby_proto::Isupport) -> Map<Seq<char>, Option<Seq<char>>>;

/// The membership prefixes in force in an `obby_proto::Isupport`: each mode letter with the
/// character that shows it, the highest rank first.
pub uninterp spec fn membership(tokens: obby_proto::Isupport) -> Seq<(char, char)>;

/// The code of the character that two characters after `\x` stand for: two hexadecimal digits, or
/// a `+` and one.
pub open spec fn escape_code(first: char, second: char) -> Option<nat> {
    match (hex_digit(first), hex_digit(second)) {
        (Some(high), Some(low)) => Some(16 * high + low),
        (None, Some(low)) => if first == '+' {
            Some(low)
        } else {
            None
        },
        _ => None,
    }
}

/// The text that a value stands for once the `\xHH` escapes in it are read. An incomplete or
/// invalid escape stands for itself.
pub open spec fn unescaped(raw: Seq<char>) -> Seq<char>
    decreases raw.len(),
{
    if raw.len() == 0 {
        Seq::empty()
    } else if raw.len() > 1 && raw[0] == '\\' && raw[1] == 'x' {
        if raw.len() > 3 && escape_code(raw[2], raw[3]) is Some {
            seq![escape_code(raw[2], raw[3])->0 as char] + unescaped(raw.skip(4))
        } else {
            raw.take(2) + unescaped(raw.skip(2))
        }
    } else {
        raw.take(1) + unescaped(raw.skip(1))
    }
}

/// One token, read.
#[derive(Debug, Clone, PartialEq, Eq)]
pub struct Token {
    /// The token's name, without a `-` before it or a `+` after it.
    pub name: String,
    /// The value now in force.
    pub value: Option<String>,
    /// True when the server withdrew the token.
    pub removed: bool,
}

/// What a token says.
#[verifier::ext_equal]
pub struct TokenView {
    pub name: Seq<char>,
    pub value: Option<Seq<char>>,
    pub removed: bool,
}

impl View for Token {
    type V = TokenView;

    open spec fn view(&self) -> TokenView {
        TokenView { name: self.name@, value: self.value.deep_view(), removed: self.removed }
    }
}

/// The tokens of a server that has sent none.
pub open spec fn no_tokens() -> Map<Seq<char>, Option<Seq<char>>> {
    Map::empty()
}

/// What a token says beside those already in force. `-NAME` withdraws one, a bare name is a flag,
/// `NAME=value` sets a value and `NAME+=value` adds to the one in force.
pub open spec fn token_read(
    held: Map<Seq<char>, Option<Seq<char>>>,
    token: Seq<char>,
) -> TokenView {
    match without_prefix(token, '-') {
        Some(rest) => TokenView { name: before_first(rest, '='), value: None, removed: true },
        None => match cut(token, '=') {
            None => TokenView { name: token, value: None, removed: false },
            Some((name, raw)) => if name.len() > 0 && name.last() == '+' {
                let name = name.drop_last();
                TokenView {
                    name,
                    value: Some(held_value(held, name) + unescaped(raw)),
                    removed: false,
                }
            } else {
                TokenView { name, value: Some(unescaped(raw)), removed: false }
            },
        },
    }
}

/// The value in force under a name, empty where there is none.
pub open spec fn held_value(held: Map<Seq<char>, Option<Seq<char>>>, name: Seq<char>) -> Seq<char> {
    if held.contains_key(name) {
        match held[name] {
            Some(value) => value,
            None => Seq::empty(),
        }
    } else {
        Seq::empty()
    }
}

/// The tokens in force after this one.
pub open spec fn tokens_with(
    held: Map<Seq<char>, Option<Seq<char>>>,
    token: TokenView,
) -> Map<Seq<char>, Option<Seq<char>>> {
    if token.removed {
        held.remove(token.name)
    } else {
        held.insert(token.name, token.value)
    }
}

/// The prefixes in force after this token. Only `PREFIX` moves them, and a malformed one does not.
pub open spec fn prefix_with(held: Seq<(char, char)>, token: TokenView) -> Seq<(char, char)> {
    if token.name != "PREFIX"@ {
        held
    } else {
        match token.value {
            None => default_prefix(),
            Some(value) => match prefix_of(value) {
                Some(pairs) => pairs,
                None => held,
            },
        }
    }
}

/// `obby_proto::Isupport::default` holds no token, and the prefixes of a server that does not say.
#[verifier::external_body]
fn proto_default() -> (r: obby_proto::Isupport)
    ensures
        advertised(r) == no_tokens(),
        membership(r) == default_prefix(),
{
    obby_proto::Isupport::default()
}

/// `obby_proto::Isupport::apply` reads one token as [`token_read`] says, with the escapes in its
/// value read, puts it in force and says what it read.
#[verifier::external_body]
fn proto_apply(tokens: &mut obby_proto::Isupport, token: &str) -> (r: Token)
    ensures
        r@ == token_read(advertised(*old(tokens)), token@),
        advertised(*final(tokens)) == tokens_with(advertised(*old(tokens)), r@),
        membership(*final(tokens)) == prefix_with(membership(*old(tokens)), r@),
{
    let read = tokens.apply(token);
    Token { name: read.name, value: read.value, removed: read.removed }
}

/// `obby_proto::Isupport::get` gives the value in force under a name.
#[verifier::external_body]
fn proto_get(tokens: &obby_proto::Isupport, name: &str) -> (r: Option<Option<String>>)
    ensures
        r.deep_view() == (if advertised(*tokens).contains_key(name@) {
            Some(advertised(*tokens)[name@])
        } else {
            None
        }),
{
    tokens.get(name).map(|value| value.map(|text| text.to_owned()))
}

/// One mode letter changing, with the argument it took.
#[derive(Debug, Clone, PartialEq, Eq)]
pub struct ModeChange {
    /// True for `+`, false for `-`.
    pub set: bool,
    /// The mode letter.
    pub mode: char,
    /// The argument, when the letter takes one in this direction.
    pub arg: Option<String>,
    /// True when the letter grants membership status.
    pub membership: bool,
}

/// What a mode change says.
#[verifier::ext_equal]
pub struct ModeChangeView {
    pub set: bool,
    pub mode: char,
    pub arg: Option<Seq<char>>,
    pub membership: bool,
}

impl View for ModeChange {
    type V = ModeChangeView;

    open spec fn view(&self) -> ModeChangeView {
        ModeChangeView {
            set: self.set,
            mode: self.mode,
            arg: self.arg.deep_view(),
            membership: self.membership,
        }
    }
}

impl DeepView for ModeChange {
    type V = ModeChangeView;

    open spec fn deep_view(&self) -> ModeChangeView {
        self@
    }
}

/// The letters of one class in a `CHANMODES` value, none where the value ends before it.
pub open spec fn mode_class(value: Seq<char>, class: int) -> Seq<char> {
    if 0 <= class < fields(value, ',').len() {
        fields(value, ',')[class]
    } else {
        Seq::empty()
    }
}

/// Whether a mode letter takes an argument when it is set or, where `set` is false, when it is
/// taken back. A letter that the server never spoke of takes none.
pub open spec fn takes_argument(
    tokens: Map<Seq<char>, Option<Seq<char>>>,
    letters: Seq<char>,
    set: bool,
    mode: char,
) -> bool {
    let classes = if tokens.contains_key("CHANMODES"@) && tokens["CHANMODES"@] is Some {
        tokens["CHANMODES"@]->0
    } else {
        seq!['b', ',', 'k', ',', 'l']
    };
    ||| letters.contains(mode)
    ||| mode_class(classes, 0).contains(mode)
    ||| mode_class(classes, 1).contains(mode)
    ||| set && mode_class(classes, 2).contains(mode)
}

/// The changes that a channel mode string makes, from a sign and the arguments not yet taken on.
pub open spec fn modes_from(
    tokens: Map<Seq<char>, Option<Seq<char>>>,
    letters: Seq<char>,
    text: Seq<char>,
    set: bool,
    args: Seq<Seq<char>>,
) -> Seq<ModeChangeView>
    decreases text.len(),
{
    if text.len() == 0 {
        Seq::empty()
    } else if text[0] == '+' || text[0] == '-' {
        modes_from(tokens, letters, text.skip(1), text[0] == '+', args)
    } else {
        let takes = takes_argument(tokens, letters, set, text[0]) && args.len() > 0;
        let change = ModeChangeView {
            set,
            mode: text[0],
            arg: if takes {
                Some(args[0])
            } else {
                None
            },
            membership: letters.contains(text[0]),
        };
        let left = if takes {
            args.skip(1)
        } else {
            args
        };
        seq![change] + modes_from(tokens, letters, text.skip(1), set, left)
    }
}

/// The changes that a mode string and its arguments make, under these tokens and these membership
/// mode letters. Letters are set until a `-` comes.
pub open spec fn channel_modes(
    tokens: Map<Seq<char>, Option<Seq<char>>>,
    letters: Seq<char>,
    params: Seq<Seq<char>>,
) -> Seq<ModeChangeView> {
    if params.len() == 0 {
        Seq::empty()
    } else {
        modes_from(tokens, letters, params[0], true, params.skip(1))
    }
}

/// `obby_proto::parse_channel_modes` splits a channel mode change into one entry for each letter,
/// as [`channel_modes`] says. What `CHANMODES` and `PREFIX` say decides which letters take an
/// argument.
#[verifier::external_body]
fn proto_channel_modes(tokens: &obby_proto::Isupport, params: &Vec<String>) -> (r: Vec<ModeChange>)
    ensures
        r.deep_view() == channel_modes(
            advertised(*tokens),
            prefix_modes(membership(*tokens)),
            params.deep_view(),
        ),
{
    obby_proto::parse_channel_modes(tokens, params)
        .into_iter()
        .map(|c| ModeChange { set: c.set, mode: c.mode, arg: c.arg, membership: c.membership })
        .collect()
}

/// A letter that takes no argument, set or not.
pub open spec fn flag_change(set: bool, mode: char) -> ModeChangeView {
    ModeChangeView { set, mode, arg: None, membership: false }
}

/// The changes that a user mode string makes, from a sign on. User modes take no argument.
pub open spec fn user_modes(spec_text: Seq<char>, set: bool) -> Seq<ModeChangeView>
    decreases spec_text.len(),
{
    if spec_text.len() == 0 {
        Seq::empty()
    } else if spec_text[0] == '+' {
        user_modes(spec_text.drop_first(), true)
    } else if spec_text[0] == '-' {
        user_modes(spec_text.drop_first(), false)
    } else {
        seq![flag_change(set, spec_text[0])] + user_modes(spec_text.drop_first(), set)
    }
}

fn push_flag(out: &mut Vec<ModeChange>, set: bool, mode: char)
    ensures
        final(out).deep_view() == old(out).deep_view().push(
            flag_change(set, mode),
        ),
{
    out.push(ModeChange { set, mode, arg: None, membership: false });
    assert(out.deep_view() =~= old(out).deep_view().push(flag_change(set, mode)));
}

/// Split a user mode change into one entry for each letter.
pub fn parse_user_modes(text: &str) -> (r: Vec<ModeChange>)
    ensures
        r.deep_view() == user_modes(text@, true),
{
    let chars = crate::text::chars_of(text);
    let mut out: Vec<ModeChange> = Vec::new();
    let mut set: bool = true;
    let mut i: usize = 0;
    assert(out.deep_view() + user_modes(chars@.skip(0), true) =~= user_modes(chars@, true)) by {
        assert(chars@.skip(0) =~= chars@);
    }
    while i < chars.len()
        invariant
            i <= chars@.len(),
            out.deep_view() + user_modes(chars@.skip(i as int), set) == user_modes(chars@, true),
        decreases chars@.len() - i,
    {
        let ghost rest = chars@.skip(i as int);
        let ghost had = out.deep_view();
        assert(rest.drop_first() =~= chars@.skip(i + 1));
        assert(rest[0] == chars@[i as int]);
        let c = chars[i];
        if c == '+' {
            set = true;
        } else if c == '-' {
            set = false;
        } else {
            push_flag(&mut out, set, c);
            assert(out.deep_view() + user_modes(chars@.skip(i + 1), set) =~= had + user_modes(
                rest,
                set,
            ));
        }
        i = i + 1;
    }
    assert(out.deep_view() =~= user_modes(chars@, true));
    out
}

/// The tokens, and the prefixes that they drive.
#[derive(Debug)]
struct Settings {
    tokens: obby_proto::Isupport,
    prefix: Prefix,
}

/// Everything that the server said about itself.
#[derive(Debug)]
pub struct Features {
    settings: Settings,
}

/// What a server said about itself.
#[verifier::ext_equal]
pub struct FeaturesView {
    pub tokens: Map<Seq<char>, Option<Seq<char>>>,
    pub prefix: Seq<(char, char)>,
}

impl View for Features {
    type V = FeaturesView;

    closed spec fn view(&self) -> FeaturesView {
        FeaturesView {
            tokens: advertised(self.settings.tokens),
            prefix: membership(self.settings.tokens),
        }
    }
}

impl Features {
    #[verifier::type_invariant]
    spec fn well_formed(&self) -> bool {
        self.settings.prefix@ == membership(self.settings.tokens)
    }
}

impl FeaturesView {
    /// A server that has said nothing.
    pub open spec fn silent() -> FeaturesView {
        FeaturesView { tokens: no_tokens(), prefix: default_prefix() }
    }

    /// What the server has said once it sent this token.
    pub open spec fn with(self, token: Seq<char>) -> FeaturesView {
        let read = token_read(self.tokens, token);
        FeaturesView {
            tokens: tokens_with(self.tokens, read),
            prefix: prefix_with(self.prefix, read),
        }
    }

    /// How the server folds case.
    pub open spec fn casemapping(self) -> Casemapping {
        let value = held_value(self.tokens, "CASEMAPPING"@);
        if value == "ascii"@ {
            Casemapping::Ascii
        } else if value == "rfc1459-strict"@ {
            Casemapping::Rfc1459Strict
        } else {
            Casemapping::Rfc1459
        }
    }

    /// What a name folds to.
    pub open spec fn fold(self, name: Seq<char>) -> Seq<char> {
        self.casemapping().folded(name)
    }

    /// True when the two names are one identity.
    pub open spec fn same_name(self, a: Seq<char>, b: Seq<char>) -> bool {
        self.fold(a) == self.fold(b)
    }

    /// True when a name starts as a channel's does. `#` and `&` start one where the server does not
    /// say.
    pub open spec fn is_channel(self, name: Seq<char>) -> bool {
        let types = held_value(self.tokens, "CHANTYPES"@);
        &&& name.len() > 0
        &&& if types.len() == 0 {
            name[0] == '#' || name[0] == '&'
        } else {
            types.contains(name[0])
        }
    }

    /// True when a character before a channel's name addresses part of its members.
    pub open spec fn is_statusmsg(self, c: char) -> bool {
        held_value(self.tokens, "STATUSMSG"@).contains(c)
    }

    /// A token whose value is a number.
    pub open spec fn number(self, name: Seq<char>) -> Option<nat> {
        if self.tokens.contains_key(name) {
            match self.tokens[name] {
                Some(value) => unsigned(value, u32::MAX as nat),
                None => None,
            }
        } else {
            None
        }
    }

    /// The changes that a mode string and its arguments make to a channel.
    pub open spec fn channel_modes(self, params: Seq<Seq<char>>) -> Seq<ModeChangeView> {
        channel_modes(self.tokens, prefix_modes(self.prefix), params)
    }
}

impl Default for Features {
    fn default() -> (r: Self)
        ensures
            r@ == FeaturesView::silent(),
    {
        Features { settings: Settings { tokens: proto_default(), prefix: Prefix::default() } }
    }
}

impl Features {
    /// Put one token in force, and say what it turned out to mean.
    pub fn apply(&mut self, token: &str) -> (r: Token)
        ensures
            r@ == token_read(old(self)@.tokens, token@),
            final(self)@ == old(self)@.with(token@),
    {
        proof {
            use_type_invariant(&*self);
        }
        let mut settings = Settings { tokens: proto_default(), prefix: Prefix::default() };
        core::mem::swap(&mut settings, &mut self.settings);
        let read = proto_apply(&mut settings.tokens, token);
        if same(&read.name, "PREFIX") {
            match &read.value {
                None => {
                    settings.prefix = Prefix::default();
                },
                Some(value) => {
                    if let Some(prefix) = Prefix::parse(value) {
                        settings.prefix = prefix;
                    }
                },
            }
        }
        self.settings = settings;
        read
    }

    fn value_of(&self, name: &str) -> (r: String)
        ensures
            r@ == held_value(self@.tokens, name@),
    {
        match proto_get(&self.settings.tokens, name) {
            Some(Some(value)) => value,
            _ => String::new(),
        }
    }

    /// The value in force under a name: nothing where the token is absent, and no value where it is
    /// a bare flag.
    pub fn get(&self, name: &str) -> (r: Option<Option<String>>)
        ensures
            r.deep_view() == (if self@.tokens.contains_key(name@) {
                Some(self@.tokens[name@])
            } else {
                None
            }),
    {
        proto_get(&self.settings.tokens, name)
    }

    /// True when the server advertised this token at all.
    pub fn has(&self, name: &str) -> (r: bool)
        ensures
            r == self@.tokens.contains_key(name@),
    {
        proto_get(&self.settings.tokens, name).is_some()
    }

    /// A token whose value is a number.
    pub fn number(&self, name: &str) -> (r: Option<u32>)
        ensures
            match self@.number(name@) {
                Some(n) => r == Some(n as u32),
                None => r is None,
            },
    {
        match proto_get(&self.settings.tokens, name) {
            Some(Some(value)) => match parse_unsigned(&value, 0xffff_ffff) {
                Some(n) => Some(n as u32),
                None => None,
            },
            _ => None,
        }
    }

    /// How the server folds case.
    pub fn casemapping(&self) -> (r: Casemapping)
        ensures
            r == self@.casemapping(),
    {
        let value = self.value_of("CASEMAPPING");
        if same(&value, "ascii") {
            Casemapping::Ascii
        } else if same(&value, "rfc1459-strict") {
            Casemapping::Rfc1459Strict
        } else {
            Casemapping::Rfc1459
        }
    }

    /// Fold a nick or a channel name into a key.
    pub fn fold(&self, name: &str) -> (r: CaseFolded)
        ensures
            r@ == self@.fold(name@),
    {
        self.casemapping().fold(name)
    }

    /// True when a name starts as a channel's does.
    pub fn is_channel(&self, name: &str) -> (r: bool)
        ensures
            r == self@.is_channel(name@),
    {
        let types = self.value_of("CHANTYPES");
        match first_char(name) {
            None => false,
            Some(c) => if types.as_str().is_empty() {
                c == '#' || c == '&'
            } else {
                contains_char(&types, c)
            },
        }
    }

    /// True when a character before a channel's name addresses part of its members.
    pub fn is_statusmsg(&self, c: char) -> (r: bool)
        ensures
            r == self@.is_statusmsg(c),
    {
        contains_char(&self.value_of("STATUSMSG"), c)
    }

    /// The membership prefixes.
    pub fn prefix(&self) -> (r: &Prefix)
        ensures
            r@ == self@.prefix,
    {
        proof {
            use_type_invariant(self);
        }
        &self.settings.prefix
    }

    /// Split a channel mode change into one entry for each letter.
    pub fn parse_channel_modes(&self, params: &Vec<String>) -> (r: Vec<ModeChange>)
        ensures
            r.deep_view() == self@.channel_modes(params.deep_view()),
    {
        proto_channel_modes(&self.settings.tokens, params)
    }
}

/// A value without a backslash stands for itself.
pub proof fn law_plain_value_stands_for_itself(raw: Seq<char>)
    requires
        !raw.contains('\\'),
    ensures
        unescaped(raw) == raw,
    decreases raw.len(),
{
    if raw.len() > 0 {
        assert(raw[0] != '\\');
        assert forall|c: char| raw.skip(1).contains(c) implies raw.contains(c) by {
            let at = choose|at: int| 0 <= at < raw.skip(1).len() && raw.skip(1)[at] == c;
            assert(raw[at + 1] == c);
        }
        law_plain_value_stands_for_itself(raw.skip(1));
        assert(raw.take(1) + raw.skip(1) =~= raw);
    }
}

} // verus!
