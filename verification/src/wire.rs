//! One protocol line, and the names, prefixes and modes that lines speak of.

use vstd::prelude::*;

use crate::sorted::{text_before, SortKey};
use crate::text::{
    chars_of, cut, first_at, joined, lemma_first_at, same, same_ignoring_case, string_between,
    without_prefix,
};

verus! {

/// One message tag.
#[derive(Debug, Clone, PartialEq, Eq)]
pub struct Tag {
    /// The tag's name, with its leading `+` where it is a client's own.
    pub key: String,
    /// The unescaped value.
    pub value: Option<String>,
}

/// What a tag says.
#[verifier::ext_equal]
pub struct TagView {
    pub key: Seq<char>,
    pub value: Option<Seq<char>>,
}

impl View for Tag {
    type V = TagView;

    open spec fn view(&self) -> TagView {
        TagView { key: self.key@, value: self.value.deep_view() }
    }
}

impl DeepView for Tag {
    type V = TagView;

    open spec fn deep_view(&self) -> TagView {
        self@
    }
}

/// Where a line came from.
#[derive(Debug, Clone, PartialEq, Eq)]
pub struct Source {
    /// The nick, or the server's name.
    pub name: String,
    /// The user part of a full hostmask.
    pub user: Option<String>,
    /// The host part, when present.
    pub host: Option<String>,
}

/// What a source says.
#[verifier::ext_equal]
pub struct SourceView {
    pub name: Seq<char>,
    pub user: Option<Seq<char>>,
    pub host: Option<Seq<char>>,
}

impl View for Source {
    type V = SourceView;

    open spec fn view(&self) -> SourceView {
        SourceView { name: self.name@, user: self.user.deep_view(), host: self.host.deep_view() }
    }
}

impl DeepView for Source {
    type V = SourceView;

    open spec fn deep_view(&self) -> SourceView {
        self@
    }
}

/// One protocol line.
#[derive(Debug, PartialEq, Eq)]
pub struct Line {
    /// The tags, in the order they stand.
    pub tags: Vec<Tag>,
    /// The source, when the line has one.
    pub source: Option<Source>,
    /// The command or three-digit numeric, as it is spelled.
    pub command: String,
    /// The parameters, the trailing one last.
    pub params: Vec<String>,
}

/// What a line says.
#[verifier::ext_equal]
pub struct LineView {
    pub tags: Seq<TagView>,
    pub source: Option<SourceView>,
    pub command: Seq<char>,
    pub params: Seq<Seq<char>>,
}

impl View for Line {
    type V = LineView;

    open spec fn view(&self) -> LineView {
        LineView {
            tags: self.tags.deep_view(),
            source: self.source.deep_view(),
            command: self.command@,
            params: self.params.deep_view(),
        }
    }
}

impl DeepView for Line {
    type V = LineView;

    open spec fn deep_view(&self) -> LineView {
        self@
    }
}

/// The value of the last tag with this key.
pub open spec fn tag_value(tags: Seq<TagView>, key: Seq<char>) -> Option<Seq<char>>
    decreases tags.len(),
{
    if tags.len() == 0 {
        None
    } else if tags.last().key == key {
        tags.last().value
    } else {
        tag_value(tags.drop_last(), key)
    }
}

/// The tags with this one in the place of the first of its key, or at the end when there is none.
pub open spec fn tags_with(tags: Seq<TagView>, tag: TagView) -> Seq<TagView>
    decreases tags.len(),
{
    if tags.len() == 0 {
        seq![tag]
    } else if tags[0].key == tag.key {
        seq![tag] + tags.drop_first()
    } else {
        seq![tags[0]] + tags_with(tags.drop_first(), tag)
    }
}

impl LineView {
    /// A line with no tags and no source.
    pub open spec fn plain(command: Seq<char>, params: Seq<Seq<char>>) -> LineView {
        LineView { tags: Seq::empty(), source: None, command, params }
    }

    /// The parameter at this position.
    pub open spec fn param(self, i: int) -> Option<Seq<char>> {
        if 0 <= i < self.params.len() {
            Some(self.params[i])
        } else {
            None
        }
    }

    /// The parameter at this position, or nothing at all in its place.
    pub open spec fn param_or_empty(self, i: int) -> Seq<char> {
        match self.param(i) {
            Some(p) => p,
            None => Seq::empty(),
        }
    }

    /// The last parameter.
    pub open spec fn trailing(self) -> Option<Seq<char>> {
        self.param(self.params.len() - 1)
    }

    /// The last parameter, or nothing at all in its place.
    pub open spec fn trailing_or_empty(self) -> Seq<char> {
        self.param_or_empty(self.params.len() - 1)
    }

    /// The unescaped value of a tag.
    pub open spec fn tag(self, key: Seq<char>) -> Option<Seq<char>> {
        tag_value(self.tags, key)
    }

    /// The message that a line replies to. Both spellings of the tag are read.
    pub open spec fn reply_tag(self) -> Option<Seq<char>> {
        match self.tag("+reply"@) {
            Some(id) => Some(id),
            None => self.tag("+draft/reply"@),
        }
    }

    /// True when this is the command, however it is cased.
    pub open spec fn is(self, command: Seq<char>) -> bool {
        crate::text::lower(self.command) == crate::text::lower(command)
    }

    /// The line with this tag set.
    pub open spec fn with_tag(self, key: Seq<char>, value: Seq<char>) -> LineView {
        LineView { tags: tags_with(self.tags, TagView { key, value: Some(value) }), ..self }
    }

    /// Who sent the line, empty when it does not say.
    pub open spec fn sender(self) -> Seq<char> {
        match self.source {
            Some(source) => source.name,
            None => Seq::empty(),
        }
    }
}

/// Copy a text that may be missing.
pub(crate) fn owned(s: Option<&str>) -> (r: Option<String>)
    ensures
        r.deep_view() == s.deep_view(),
{
    match s {
        Some(s) => Some(s.to_owned()),
        None => None,
    }
}

/// Copy a text, empty where it is missing.
pub(crate) fn or_empty(s: Option<&str>) -> (r: String)
    ensures
        r@ == (match s.deep_view() {
            Some(t) => t,
            None => Seq::<char>::empty(),
        }),
{
    match s {
        Some(s) => s.to_owned(),
        None => String::new(),
    }
}

impl Clone for Line {
    fn clone(&self) -> (r: Self)
        ensures
            r@ == self@,
    {
        let mut tags: Vec<Tag> = Vec::new();
        let mut i: usize = 0;
        while i < self.tags.len()
            invariant
                i <= self.tags@.len(),
                tags.deep_view() == self.tags.deep_view().take(i as int),
            decreases self.tags@.len() - i,
        {
            let tag = Tag { key: self.tags[i].key.clone(), value: self.tags[i].value.clone() };
            let ghost had = tags.deep_view();
            assert(tag@ == self.tags@[i as int]@);
            tags.push(tag);
            assert(tags.deep_view() =~= had.push(tag@));
            i = i + 1;
            assert(tags.deep_view() =~= self.tags.deep_view().take(i as int));
        }
        assert(tags.deep_view() =~= self.tags.deep_view());
        let source = match &self.source {
            Some(s) => Some(
                Source { name: s.name.clone(), user: s.user.clone(), host: s.host.clone() },
            ),
            None => None,
        };
        let params = crate::text::copy_strings(&self.params, 0, self.params.len());
        assert(params.deep_view() =~= self.params.deep_view());
        Line { tags, source, command: self.command.clone(), params }
    }
}

impl Line {
    /// A line with no tags and no source.
    pub fn new(command: &str, params: Vec<String>) -> (r: Self)
        ensures
            r@ == LineView::plain(command@, params.deep_view()),
    {
        let r = Line { tags: Vec::new(), source: None, command: command.to_owned(), params };
        assert(r@.tags =~= Seq::empty());
        r
    }

    /// The parameter at this position.
    pub fn param(&self, i: usize) -> (r: Option<&str>)
        ensures
            r.deep_view() == self@.param(i as int),
    {
        if i < self.params.len() {
            Some(self.params[i].as_str())
        } else {
            None
        }
    }

    /// The last parameter, which for most commands is the body.
    pub fn trailing(&self) -> (r: Option<&str>)
        ensures
            r.deep_view() == self@.trailing(),
    {
        if self.params.len() > 0 {
            Some(self.params[self.params.len() - 1].as_str())
        } else {
            None
        }
    }

    /// The unescaped value of a tag.
    pub fn tag(&self, key: &str) -> (r: Option<&str>)
        ensures
            r.deep_view() == self@.tag(key@),
    {
        let mut i: usize = self.tags.len();
        let ghost all = self.tags.deep_view();
        assert(all.take(i as int) =~= all);
        while i > 0
            invariant
                i <= self.tags@.len(),
                all == self.tags.deep_view(),
                tag_value(all, key@) == tag_value(all.take(i as int), key@),
            decreases i,
        {
            i = i - 1;
            let tag = &self.tags[i];
            assert(all[i as int] == tag@);
            assert(all.take(i + 1).drop_last() =~= all.take(i as int));
            if same(&tag.key, key) {
                return match &tag.value {
                    Some(v) => Some(v.as_str()),
                    None => None,
                };
            }
        }
        None
    }

    /// The message that the line replies to.
    pub fn reply_tag(&self) -> (r: Option<&str>)
        ensures
            r.deep_view() == self@.reply_tag(),
    {
        match self.tag("+reply") {
            Some(id) => Some(id),
            None => self.tag("+draft/reply"),
        }
    }

    /// True when this is the command, however it is cased.
    pub fn is(&self, command: &str) -> (r: bool)
        ensures
            r == self@.is(command@),
    {
        same_ignoring_case(&self.command, command)
    }

    /// Set a tag, in the place of one with the same key.
    pub fn set_tag(&mut self, key: &str, value: &str)
        ensures
            final(self)@ == old(self)@.with_tag(key@, value@),
    {
        let tag = Tag { key: key.to_owned(), value: Some(value.to_owned()) };
        let ghost all = self.tags.deep_view();
        let ghost put = tag@;
        let mut i: usize = 0;
        assert(all.take(0) + tags_with(all.skip(0), put) =~= tags_with(all, put)) by {
            assert(all.skip(0) =~= all);
        }
        while i < self.tags.len() && !same(&self.tags[i].key, key)
            invariant
                i <= self.tags@.len(),
                all == self.tags.deep_view(),
                put == tag@,
                put.key == key@,
                *self == *old(self),
                all.take(i as int) + tags_with(all.skip(i as int), put) == tags_with(all, put),
            decreases self.tags@.len() - i,
        {
            proof {
                let rest = all.skip(i as int);
                assert(rest[0] == self.tags@[i as int]@);
                assert(rest.drop_first() =~= all.skip(i + 1));
                assert(all.take(i as int) + tags_with(rest, put) =~= all.take(i + 1) + tags_with(
                    all.skip(i + 1),
                    put,
                ));
            }
            i = i + 1;
        }
        if i < self.tags.len() {
            proof {
                let rest = all.skip(i as int);
                assert(rest[0] == self.tags@[i as int]@);
                assert(all.take(i as int) + (seq![put] + rest.drop_first()) =~= all.update(
                    i as int,
                    put,
                ));
            }
            self.tags[i] = tag;
            assert(self.tags.deep_view() =~= all.update(i as int, put));
        } else {
            assert(all.take(i as int) + tags_with(all.skip(i as int), put) =~= all.push(put));
            self.tags.push(tag);
            assert(self.tags.deep_view() =~= all.push(put));
        }
    }

    /// Who sent the line, empty when it does not say.
    pub fn sender(&self) -> (r: String)
        ensures
            r@ == self@.sender(),
    {
        match &self.source {
            Some(source) => source.name.clone(),
            None => String::new(),
        }
    }
}

/// What [`parsed`] of a text is: the line that `obby_proto::Message::parse` reads from it, or
/// nothing where that finds no command.
pub uninterp spec fn parsed(text: Seq<char>) -> Option<LineView>;

/// `obby_proto::Message::parse` reads one line. What it makes of a text is a function of the text
/// alone, which [`parsed`] names.
#[verifier::external_body]
fn proto_parse(text: &str) -> (r: Option<Line>)
    ensures
        r.deep_view() == parsed(text@),
{
    let message = obby_proto::Message::parse(text).ok()?;
    Some(Line {
        tags: message.tags.iter().map(|t| Tag { key: t.key.clone(), value: t.value.clone() }).collect(),
        source: message.source.map(|s| Source { name: s.name, user: s.user, host: s.host }),
        command: message.command,
        params: message.params,
    })
}

/// A character as it stands in a tag's value on the wire.
pub open spec fn escaped_char(c: char) -> Seq<char> {
    if c == ';' {
        seq!['\\', ':']
    } else if c == ' ' {
        seq!['\\', 's']
    } else if c == '\\' {
        seq!['\\', '\\']
    } else if c == '\r' {
        seq!['\\', 'r']
    } else if c == '\n' {
        seq!['\\', 'n']
    } else {
        seq![c]
    }
}

/// A tag's value as it stands on the wire.
pub open spec fn escaped(value: Seq<char>) -> Seq<char>
    decreases value.len(),
{
    if value.len() == 0 {
        Seq::empty()
    } else {
        escaped_char(value[0]) + escaped(value.skip(1))
    }
}

/// A tag as it stands on the wire.
pub open spec fn tag_text(tag: TagView) -> Seq<char> {
    match tag.value {
        Some(value) => tag.key + seq!['='] + escaped(value),
        None => tag.key,
    }
}

/// A source as it stands on the wire.
pub open spec fn source_text(source: SourceView) -> Seq<char> {
    source.name + (match source.user {
        Some(user) => seq!['!'] + user,
        None => Seq::empty(),
    }) + (match source.host {
        Some(host) => seq!['@'] + host,
        None => Seq::empty(),
    })
}

/// Parameters as they stand on the wire, each after a space. The last one has a colon before it
/// where it could not be read back without.
pub open spec fn params_text(params: Seq<Seq<char>>) -> Seq<char>
    decreases params.len(),
{
    if params.len() == 0 {
        Seq::empty()
    } else {
        let p = params[0];
        let marked = params.len() == 1 && (p.len() == 0 || p.contains(' ') || p[0] == ':');
        (if marked {
            seq![' ', ':']
        } else {
            seq![' ']
        }) + p + params_text(params.skip(1))
    }
}

/// A line as it stands on the wire, without its line ending: the tags after `@`, the source after
/// `:`, the command and the parameters.
pub open spec fn rendered(line: LineView) -> Seq<char> {
    (if line.tags.len() > 0 {
        seq!['@'] + joined(line.tags.map_values(|t: TagView| tag_text(t)), seq![';']) + seq![' ']
    } else {
        Seq::empty()
    }) + (match line.source {
        Some(source) => seq![':'] + source_text(source) + seq![' '],
        None => Seq::empty(),
    }) + line.command + params_text(line.params)
}

/// `Display` of `obby_proto::Message` writes one line without its line ending, as [`rendered`] says:
/// the tags escaped and parted by `;`, the source, the command, and the parameters with a colon
/// before the last one where that is empty, holds a space or starts with a colon.
#[verifier::external_body]
fn proto_render(line: &Line) -> (r: String)
    ensures
        r@ == rendered(line@),
{
    obby_proto::Message {
        tags: line.tags.iter().map(|t| obby_proto::Tag { key: t.key.clone(), value: t.value.clone() }).collect(),
        source: line.source.as_ref().map(|s| obby_proto::Source {
            name: s.name.clone(),
            user: s.user.clone(),
            host: s.host.clone(),
        }),
        command: line.command.clone(),
        params: line.params.clone(),
    }.to_string()
}

/// What [`server_time`] of a text is: the milliseconds since the Unix epoch that
/// `obby_proto::parse_server_time` reads from it.
pub uninterp spec fn server_time(text: Seq<char>) -> Option<u64>;

/// `obby_proto::parse_server_time` reads a `server-time` value. What it makes of a text is a
/// function of the text alone, which [`server_time`] names.
#[verifier::external_body]
pub(crate) fn read_server_time(text: &str) -> (r: Option<u64>)
    ensures
        r == server_time(text@),
{
    obby_proto::parse_server_time(text)
}

impl Line {
    /// Read one line. A line ending is optional and ignored. Nothing where there is no command.
    pub fn parse(text: &str) -> (r: Option<Line>)
        ensures
            r.deep_view() == parsed(text@),
    {
        proto_parse(text)
    }

    /// Write the line, without a line ending.
    pub fn render(&self) -> (r: String)
        ensures
            r@ == rendered(self@),
    {
        proto_render(self)
    }
}

/// A CTCP body taken apart.
#[verifier::ext_equal]
pub struct CtcpView {
    pub command: Seq<char>,
    pub params: Seq<char>,
}

/// What a body between CTCP delimiters says. The closing one may be missing.
pub open spec fn ctcp(body: Seq<char>) -> Option<CtcpView> {
    match without_prefix(body, '\u{1}') {
        None => None,
        Some(open) => {
            let inner = if open.len() > 0 && open.last() == '\u{1}' {
                open.drop_last()
            } else {
                open
            };
            Some(
                match cut(inner, ' ') {
                    Some((command, params)) => CtcpView { command, params },
                    None => CtcpView { command: inner, params: Seq::empty() },
                },
            )
        },
    }
}

/// Take a CTCP body apart into its command and what follows.
pub fn parse_ctcp(body: &str) -> (r: Option<(String, String)>)
    ensures
        r.deep_view() == (match ctcp(body@) {
            Some(c) => Some((c.command, c.params)),
            None => None,
        }),
{
    let chars = chars_of(body);
    if chars.len() == 0 || chars[0] != '\u{1}' {
        return None;
    }
    let mut end: usize = chars.len();
    if end > 1 && chars[end - 1] == '\u{1}' {
        end = end - 1;
    }
    let inner = string_between(&chars, 1, end);
    proof {
        let open = body@.skip(1);
        if end < chars@.len() {
            assert(inner@ =~= open.drop_last());
            assert(open.last() == '\u{1}');
        } else {
            assert(inner@ =~= open);
            if open.len() > 0 {
                assert(open.last() == chars@[chars@.len() - 1]);
            }
        }
    }
    match crate::text::split_once(&inner, ' ') {
        Some((command, params)) => Some((command, params)),
        None => Some((inner, String::new())),
    }
}

/// How a server folds case.
#[derive(Debug, Clone, Copy, PartialEq, Eq, Structural)]
pub enum Casemapping {
    /// `A-Z` only.
    Ascii,
    /// `A-Z`, and `[]\~` onto `{}|^`. What a server that says nothing uses.
    Rfc1459,
    /// As `Rfc1459`, but `~` is left alone.
    Rfc1459Strict,
}

impl Casemapping {
    /// What one character folds to.
    pub open spec fn folded_char(self, c: char) -> char {
        if 'A' <= c <= 'Z' {
            crate::text::lower_char(c)
        } else if self != Casemapping::Ascii && c == '[' {
            '{'
        } else if self != Casemapping::Ascii && c == ']' {
            '}'
        } else if self != Casemapping::Ascii && c == '\\' {
            '|'
        } else if self == Casemapping::Rfc1459 && c == '~' {
            '^'
        } else {
            c
        }
    }

    /// What a name folds to.
    pub open spec fn folded(self, name: Seq<char>) -> Seq<char> {
        name.map_values(|c: char| self.folded_char(c))
    }

    /// Fold one character.
    pub fn fold_char(self, c: char) -> (r: char)
        ensures
            r == self.folded_char(c),
    {
        if 'A' <= c && c <= 'Z' {
            crate::text::to_lower_char(c)
        } else if self != Casemapping::Ascii && c == '[' {
            '{'
        } else if self != Casemapping::Ascii && c == ']' {
            '}'
        } else if self != Casemapping::Ascii && c == '\\' {
            '|'
        } else if self == Casemapping::Rfc1459 && c == '~' {
            '^'
        } else {
            c
        }
    }

    /// Fold a name into a key.
    pub fn fold(self, name: &str) -> (r: CaseFolded)
        ensures
            r@ == self.folded(name@),
    {
        let mut out = String::new();
        for c in it: name.chars()
            invariant
                out@ == self.folded(it.seq().take(it.index() as int)),
                it.seq() == name@,
        {
            out.push(self.fold_char(c));
            assert(out@ =~= self.folded(it.seq().take(it.index() + 1)));
        }
        assert(name@.take(name@.len() as int) =~= name@);
        CaseFolded { text: out }
    }

    /// True when the two names are one identity.
    pub fn matches(self, a: &str, b: &str) -> (r: bool)
        ensures
            r == (self.folded(a@) == self.folded(b@)),
    {
        let x = self.fold(a);
        let y = self.fold(b);
        same(&x.text, &y.text)
    }
}

/// A nick or a channel name, folded the way the server folds it.
#[derive(Debug, PartialEq, Eq)]
pub struct CaseFolded {
    text: String,
}

impl View for CaseFolded {
    type V = Seq<char>;

    closed spec fn view(&self) -> Seq<char> {
        self.text@
    }
}

impl DeepView for CaseFolded {
    type V = Seq<char>;

    open spec fn deep_view(&self) -> Seq<char> {
        self@
    }
}

impl Clone for CaseFolded {
    fn clone(&self) -> (r: Self)
        ensures
            r@ == self@,
    {
        CaseFolded { text: self.text.clone() }
    }
}

impl SortKey for CaseFolded {
    type Rank = Seq<char>;

    open spec fn rank(&self) -> Seq<char> {
        self@
    }

    fn before(&self, other: &Self) -> (r: bool) {
        text_before(&self.text, &other.text)
    }

    fn is(&self, other: &Self) -> (r: bool) {
        same(&self.text, &other.text)
    }

    fn copied(&self) -> (r: Self) {
        self.clone()
    }
}

impl CaseFolded {
    /// Take a text that is folded already.
    pub fn already_folded(text: &str) -> (r: Self)
        ensures
            r@ == text@,
    {
        CaseFolded { text: text.to_owned() }
    }

    /// The folded text.
    pub fn as_str(&self) -> (r: &str)
        ensures
            r@ == self@,
    {
        self.text.as_str()
    }

    /// Take the folded text.
    pub fn into_string(self) -> (r: String)
        ensures
            r@ == self@,
    {
        self.text
    }
}

/// The membership prefixes of a server: each mode letter with the character that shows it, the
/// highest rank first.
#[derive(Debug, PartialEq, Eq)]
pub struct Prefix {
    pairs: Vec<(char, char)>,
}

impl View for Prefix {
    type V = Seq<(char, char)>;

    closed spec fn view(&self) -> Seq<(char, char)> {
        self.pairs@
    }
}

/// The prefixes of a server that does not say: `o` shown as `@`, then `v` shown as `+`.
pub open spec fn default_prefix() -> Seq<(char, char)> {
    seq![('o', '@'), ('v', '+')]
}

/// The prefixes that a `PREFIX` value such as `(ov)@+` gives.
pub open spec fn prefix_of(value: Seq<char>) -> Option<Seq<(char, char)>> {
    match without_prefix(value, '(') {
        None => None,
        Some(inner) => match cut(inner, ')') {
            None => None,
            Some((modes, chars)) => if modes.len() > 0 && modes.len() == chars.len() {
                Some(modes.zip_with(chars))
            } else {
                None
            },
        },
    }
}

/// The prefix characters in rank order.
pub open spec fn prefix_chars(pairs: Seq<(char, char)>) -> Seq<char> {
    pairs.map_values(|p: (char, char)| p.1)
}

/// The mode letters in rank order.
pub open spec fn prefix_modes(pairs: Seq<(char, char)>) -> Seq<char> {
    pairs.map_values(|p: (char, char)| p.0)
}

/// How highly a prefix character ranks, from zero for the highest.
pub open spec fn prefix_rank(pairs: Seq<(char, char)>, c: char) -> Option<nat> {
    let n = first_at(prefix_chars(pairs), c);
    if n < pairs.len() {
        Some(n)
    } else {
        None
    }
}

/// The prefix character that a mode letter grants.
pub open spec fn prefix_granted(pairs: Seq<(char, char)>, mode: char) -> Option<char> {
    let n = first_at(prefix_modes(pairs), mode);
    if n < pairs.len() {
        Some(pairs[n as int].1)
    } else {
        None
    }
}

/// How many characters at the front of a NAMES entry are prefixes.
pub open spec fn prefix_run(pairs: Seq<(char, char)>, entry: Seq<char>) -> nat
    decreases entry.len(),
{
    if entry.len() == 0 || !prefix_chars(pairs).contains(entry[0]) {
        0
    } else {
        1 + prefix_run(pairs, entry.drop_first())
    }
}

proof fn lemma_prefix_run(pairs: Seq<(char, char)>, entry: Seq<char>, n: nat)
    requires
        n <= entry.len(),
        forall|i: int| 0 <= i < n ==> prefix_chars(pairs).contains(#[trigger] entry[i]),
        n < entry.len() ==> !prefix_chars(pairs).contains(entry[n as int]),
    ensures
        prefix_run(pairs, entry) == n,
    decreases entry.len(),
{
    if n > 0 {
        let rest = entry.drop_first();
        assert forall|i: int| 0 <= i < n - 1 implies prefix_chars(pairs).contains(
            #[trigger] rest[i],
        ) by {
            assert(rest[i] == entry[i + 1]);
        }
        assert(prefix_chars(pairs).contains(entry[0]));
        lemma_prefix_run(pairs, rest, (n - 1) as nat);
    }
}

impl Default for Prefix {
    fn default() -> (r: Self)
        ensures
            r@ == default_prefix(),
    {
        let mut pairs: Vec<(char, char)> = Vec::new();
        pairs.push(('o', '@'));
        pairs.push(('v', '+'));
        assert(pairs@ =~= default_prefix());
        Prefix { pairs }
    }
}

impl Clone for Prefix {
    fn clone(&self) -> (r: Self)
        ensures
            r@ == self@,
    {
        let mut pairs: Vec<(char, char)> = Vec::new();
        let mut i: usize = 0;
        while i < self.pairs.len()
            invariant
                i <= self.pairs@.len(),
                pairs@ == self.pairs@.take(i as int),
            decreases self.pairs@.len() - i,
        {
            pairs.push(self.pairs[i]);
            i = i + 1;
            assert(pairs@ =~= self.pairs@.take(i as int));
        }
        assert(pairs@ =~= self.pairs@);
        Prefix { pairs }
    }
}

impl Prefix {
    /// Read a `PREFIX` value. Nothing where it is malformed.
    pub fn parse(value: &str) -> (r: Option<Self>)
        ensures
            match r {
                Some(p) => prefix_of(value@) == Some(p@),
                None => prefix_of(value@) is None,
            },
    {
        let inner = match crate::text::strip_char(value, '(') {
            Some(inner) => inner,
            None => return None,
        };
        let (modes, shown) = match crate::text::split_once(&inner, ')') {
            Some(parts) => parts,
            None => return None,
        };
        let modes = chars_of(&modes);
        let shown = chars_of(&shown);
        if modes.len() == 0 || modes.len() != shown.len() {
            return None;
        }
        let mut pairs: Vec<(char, char)> = Vec::new();
        let mut i: usize = 0;
        while i < modes.len()
            invariant
                i <= modes@.len() == shown@.len(),
                pairs@ == modes@.zip_with(shown@).take(i as int),
            decreases modes@.len() - i,
        {
            pairs.push((modes[i], shown[i]));
            i = i + 1;
            assert(pairs@ =~= modes@.zip_with(shown@).take(i as int));
        }
        assert(pairs@ =~= modes@.zip_with(shown@));
        Some(Prefix { pairs })
    }

    /// How highly a prefix character ranks, from zero for the highest.
    pub fn rank(&self, c: char) -> (r: Option<usize>)
        ensures
            match r {
                Some(n) => prefix_rank(self@, c) == Some(n as nat),
                None => prefix_rank(self@, c) is None,
            },
    {
        let mut i: usize = 0;
        let ghost chars = prefix_chars(self@);
        while i < self.pairs.len() && self.pairs[i].1 != c
            invariant
                i <= self.pairs@.len(),
                chars == prefix_chars(self@),
                chars.len() == self.pairs@.len(),
                forall|j: int| 0 <= j < i ==> chars[j] != c,
            decreases self.pairs@.len() - i,
        {
            i = i + 1;
        }
        proof {
            crate::text::lemma_first_at_is(chars, c, i as nat);
        }
        if i < self.pairs.len() {
            Some(i)
        } else {
            None
        }
    }

    /// The prefix character that a mode letter grants.
    pub fn char_for_mode(&self, mode: char) -> (r: Option<char>)
        ensures
            r == prefix_granted(self@, mode),
    {
        let mut i: usize = 0;
        let ghost modes = prefix_modes(self@);
        while i < self.pairs.len() && self.pairs[i].0 != mode
            invariant
                i <= self.pairs@.len(),
                modes == prefix_modes(self@),
                modes.len() == self.pairs@.len(),
                forall|j: int| 0 <= j < i ==> modes[j] != mode,
            decreases self.pairs@.len() - i,
        {
            i = i + 1;
        }
        proof {
            crate::text::lemma_first_at_is(modes, mode, i as nat);
        }
        if i < self.pairs.len() {
            Some(self.pairs[i].1)
        } else {
            None
        }
    }

    /// Take the prefixes off the front of a NAMES entry.
    pub fn split(&self, entry: &str) -> (r: (String, String))
        ensures
            r.0@ == entry@.take(prefix_run(self@, entry@) as int),
            r.1@ == entry@.skip(prefix_run(self@, entry@) as int),
    {
        let chars = chars_of(entry);
        let mut i: usize = 0;
        while i < chars.len() && self.rank(chars[i]).is_some()
            invariant
                i <= chars@.len(),
                chars@ == entry@,
                forall|j: int| 0 <= j < i ==> prefix_chars(self@).contains(#[trigger] entry@[j]),
            decreases chars@.len() - i,
        {
            proof {
                lemma_first_at(prefix_chars(self@), chars@[i as int]);
            }
            i = i + 1;
        }
        proof {
            if i < entry@.len() {
                lemma_first_at(prefix_chars(self@), entry@[i as int]);
            }
            lemma_prefix_run(self@, entry@, i as nat);
        }
        let head = string_between(&chars, 0, i);
        let tail = string_between(&chars, i, chars.len());
        assert(head@ =~= entry@.take(i as int));
        assert(tail@ =~= entry@.skip(i as int));
        (head, tail)
    }
}

/// A name that is folded already folds to itself, so that a key can be folded again.
pub proof fn law_folding_settles(casemapping: Casemapping, name: Seq<char>)
    ensures
        casemapping.folded(casemapping.folded(name)) == casemapping.folded(name),
{
    assert(casemapping.folded(casemapping.folded(name)) =~= casemapping.folded(name));
}

/// The last tag with a key is the one that is read, and there is nothing to read where none has it.
proof fn lemma_tag_value(tags: Seq<TagView>, key: Seq<char>, at: int)
    requires
        -1 <= at < tags.len(),
        at >= 0 ==> tags[at].key == key,
        forall|i: int| at < i < tags.len() ==> (#[trigger] tags[i]).key != key,
    ensures
        tag_value(tags, key) == (if at < 0 {
            None
        } else {
            tags[at].value
        }),
    decreases tags.len(),
{
    if at < tags.len() - 1 {
        lemma_tag_value(tags.drop_last(), key, at);
    }
}

/// Where a tag goes that is set: in the place of one with its key, or behind them all.
proof fn lemma_tags_with(tags: Seq<TagView>, tag: TagView) -> (at: int)
    ensures
        0 <= at <= tags.len(),
        at < tags.len() ==> tags[at].key == tag.key && tags_with(tags, tag) == tags.update(at, tag),
        at == tags.len() ==> tags_with(tags, tag) == tags.push(tag) && forall|i: int|
            0 <= i < tags.len() ==> (#[trigger] tags[i]).key != tag.key,
    decreases tags.len(),
{
    if tags.len() == 0 {
        assert(tags.push(tag) =~= seq![tag]);
        0
    } else if tags[0].key == tag.key {
        assert(seq![tag] + tags.drop_first() =~= tags.update(0, tag));
        0
    } else {
        let rest = tags.drop_first();
        let at = lemma_tags_with(rest, tag);
        if at < rest.len() {
            assert(seq![tags[0]] + rest.update(at, tag) =~= tags.update(at + 1, tag));
        } else {
            assert(seq![tags[0]] + rest.push(tag) =~= tags.push(tag));
            assert forall|i: int| 0 <= i < tags.len() implies (#[trigger] tags[i]).key != tag.key by {
                if i > 0 {
                    assert(rest[i - 1] == tags[i]);
                }
            }
        }
        at + 1
    }
}

/// A tag that was set is read back, and the others are left as they were. No two tags of a line
/// have the same key.
pub proof fn law_tag_is_read_back(line: LineView, key: Seq<char>, value: Seq<char>, other: Seq<char>)
    requires
        forall|i: int, j: int|
            0 <= i < j < line.tags.len() ==> (#[trigger] line.tags[i]).key != (
            #[trigger] line.tags[j]).key,
    ensures
        line.with_tag(key, value).tag(key) == Some(value),
        other != key ==> line.with_tag(key, value).tag(other) == line.tag(other),
{
    let tag = TagView { key, value: Some(value) };
    let tags = line.tags;
    let with = tags_with(tags, tag);
    let at = lemma_tags_with(tags, tag);
    lemma_tag_value(with, key, at);
    if other != key {
        if exists|i: int| 0 <= i < tags.len() && (#[trigger] tags[i]).key == other {
            let i = choose|i: int| 0 <= i < tags.len() && (#[trigger] tags[i]).key == other;
            lemma_tag_value(tags, other, i);
            lemma_tag_value(with, other, i);
        } else {
            lemma_tag_value(tags, other, -1);
            lemma_tag_value(with, other, -1);
        }
    }
}

} // verus!
