//! What becomes of a connection: what is written to open one, and what each line that a server
//! sends does to it.

use vstd::prelude::*;

use crate::batch::BatchView;
use crate::caps::{granted, valued, wanted};
use crate::command_laws::{bytes_of, line_of};
use crate::config::{ConfigView, Phase};
use crate::event::{EventView, Severity};
use crate::isupport::FeaturesView;
use crate::model::ModelView;
use crate::monitor::targets_in;
use crate::room::RoomView;
use crate::sasl::{response_lines, CredentialsView, SaslFailure, SaslState};
use crate::session::{on_line, ChangeView};
use crate::state::{severity_named, failure_named, who_lines, ClientView};
use crate::text::{lower, upper, words};
use crate::timer::DeadlineView;
use crate::voice::decoded;
use crate::wire::LineView;

verus! {

/// A line of ours with these parameters and no tags.
pub open spec fn saying(command: Seq<char>, params: Seq<Seq<char>>) -> LineView {
    line_of(Seq::empty(), command, params)
}

/// True when `after` has written these lines more than `before`, in this order.
pub open spec fn writes(before: ClientView, after: ClientView, lines: Seq<LineView>) -> bool {
    &&& after.outbox.len() == before.outbox.len() + lines.len()
    &&& after.outbox.take(before.outbox.len() as int) == before.outbox
    &&& forall|i: int|
        0 <= i < lines.len() ==> #[trigger] after.outbox[before.outbox.len() + i] == bytes_of(
            lines[i],
        )
}

/// True when `after` has these events more to tell than `before`, in this order.
pub open spec fn tells(before: ClientView, after: ClientView, events: Seq<EventView>) -> bool {
    after.events == before.events + events
}

proof fn lemma_writes(c: ClientView, after: ClientView, lines: Seq<LineView>)
    requires
        after.outbox == c.outbox + lines.map_values(crate::state::as_written()),
    ensures
        writes(c, after, lines),
{
    let more = lines.map_values(crate::state::as_written());
    assert(after.outbox.take(c.outbox.len() as int) =~= c.outbox);
    assert forall|i: int| 0 <= i < lines.len() implies #[trigger] after.outbox[c.outbox.len() + i]
        == bytes_of(lines[i]) by {
        assert(after.outbox[c.outbox.len() + i] == more[i]);
    }
}

proof fn lemma_writes_one(c: ClientView, after: ClientView, line: LineView)
    requires
        after.outbox == c.outbox.push(bytes_of(line)),
    ensures
        writes(c, after, seq![line]),
{
    assert(after.outbox.take(c.outbox.len() as int) =~= c.outbox);
}

/// On connecting we ask for the capabilities, give the server password where one is configured,
/// take the configured nick and say who we are, in this order and nothing else. The password is all
/// that `PASS` carries, and nothing but `PASS` carries it: there is one `PASS` where a password is
/// configured and none where it is not, and it comes before `NICK` and `USER`.
pub proof fn law_registration_is_written(c: ClientView, password: Seq<char>)
    ensures
        c.config.password == Some(password) ==> writes(
            c,
            c.connecting(),
            seq![
                saying("CAP"@, seq!["LS"@, "302"@]),
                saying("PASS"@, seq![password]),
                saying("NICK"@, seq![c.config.nick]),
                saying("USER"@, seq![c.config.username, "0"@, "*"@, c.config.realname]),
            ],
        ),
        c.config.password is None ==> writes(
            c,
            c.connecting(),
            seq![
                saying("CAP"@, seq!["LS"@, "302"@]),
                saying("NICK"@, seq![c.config.nick]),
                saying("USER"@, seq![c.config.username, "0"@, "*"@, c.config.realname]),
            ],
        ),
        c.connecting().phase == Phase::Negotiating,
        c.connecting().events == c.events,
        c.connecting().model == c.model,
        c.connecting().nick == c.nick,
        c.connecting().config == c.config,
{
    let lines = crate::state::registration(c.config);
    lemma_writes(c, c.connecting(), lines);
    if c.config.password == Some(password) {
        assert(lines =~= seq![
            saying("CAP"@, seq!["LS"@, "302"@]),
            saying("PASS"@, seq![password]),
            saying("NICK"@, seq![c.config.nick]),
            saying("USER"@, seq![c.config.username, "0"@, "*"@, c.config.realname]),
        ]);
    }
    if c.config.password is None {
        assert(lines =~= seq![
            saying("CAP"@, seq!["LS"@, "302"@]),
            saying("NICK"@, seq![c.config.nick]),
            saying("USER"@, seq![c.config.username, "0"@, "*"@, c.config.realname]),
        ]);
    }
}

/// A new connection has the configured nick, is not connected, and has written, told and seen
/// nothing. A username or a realname that is not given is the nick, and all else is configured as
/// asked.
pub proof fn law_new_connection(config: ConfigView)
    ensures
        ({
            let c = ClientView::fresh(config);
            &&& c.phase == Phase::Disconnected
            &&& c.nick == config.nick && c.model.me.nick == config.nick
            &&& c.outbox.len() == 0 && c.events.len() == 0 && c.partial.len() == 0
            &&& c.model.channels.dom().len() == 0 && c.model.people.dom().len() == 0
            &&& c.config.nick == config.nick
            &&& c.config.password == config.password
            &&& c.config.sasl == config.sasl
            &&& c.config.alt_nicks == config.alt_nicks
            &&& config.username.len() > 0 ==> c.config.username == config.username
            &&& config.username.len() == 0 ==> c.config.username == config.nick
            &&& config.realname.len() > 0 ==> c.config.realname == config.realname
            &&& config.realname.len() == 0 ==> c.config.realname == config.nick
        }),
{
    let c = ClientView::fresh(config);
    assert(c.model.channels.dom() =~= Set::empty());
    assert(c.model.people.dom() =~= Set::empty());
}

/// The words that a connection knows, told apart however they are cased.
proof fn lemma_words()
    ensures
        lower("PONG"@) =~= seq!['p', 'o', 'n', 'g'],
        lower("PING"@) =~= seq!['p', 'i', 'n', 'g'],
        lower("CAP"@) =~= seq!['c', 'a', 'p'],
        lower("001"@) =~= seq!['0', '0', '1'],
        lower("005"@) =~= seq!['0', '0', '5'],
        lower("TAGMSG"@).len() == 6,
        lower("CMDSLIST"@).len() == 8,
        lower("730"@) =~= seq!['7', '3', '0'],
        lower("731"@) =~= seq!['7', '3', '1'],
        "730"@ =~= seq!['7', '3', '0'],
        "731"@ =~= seq!['7', '3', '1'],
        lower("AUTHENTICATE"@).len() == 12,
        lower("433"@) =~= seq!['4', '3', '3'],
        lower("432"@) =~= seq!['4', '3', '2'],
        lower("900"@) =~= seq!['9', '0', '0'],
        lower("903"@) =~= seq!['9', '0', '3'],
        lower("904"@) =~= seq!['9', '0', '4'],
        lower("905"@) =~= seq!['9', '0', '5'],
        lower("906"@) =~= seq!['9', '0', '6'],
        lower("907"@) =~= seq!['9', '0', '7'],
        "904"@ =~= seq!['9', '0', '4'],
        "905"@ =~= seq!['9', '0', '5'],
        "906"@ =~= seq!['9', '0', '6'],
        "907"@ =~= seq!['9', '0', '7'],
        lower("BATCH"@).len() == 5,
        "FAIL"@.len() == 4 && "FAIL"@[0] == 'F',
        "WARN"@.len() == 4 && "WARN"@[0] == 'W',
        "NOTE"@.len() == 4 && "NOTE"@[0] == 'N',
{
    reveal_strlit("PONG");
    reveal_strlit("PING");
    reveal_strlit("CAP");
    reveal_strlit("001");
    reveal_strlit("005");
    reveal_strlit("TAGMSG");
    reveal_strlit("CMDSLIST");
    reveal_strlit("730");
    reveal_strlit("731");
    reveal_strlit("AUTHENTICATE");
    reveal_strlit("433");
    reveal_strlit("432");
    reveal_strlit("900");
    reveal_strlit("903");
    reveal_strlit("904");
    reveal_strlit("905");
    reveal_strlit("906");
    reveal_strlit("907");
    reveal_strlit("BATCH");
    reveal_strlit("FAIL");
    reveal_strlit("WARN");
    reveal_strlit("NOTE");
}

/// The connection as it handles a line: the link is known to be alive, and the line may answer what
/// was asked.
spec fn alive(c: ClientView, line: LineView) -> ClientView {
    ClientView { labels: c.labels.after(line).0, ..c.kept_alive() }
}

/// A line with a word of three characters is dealt with by that word.
proof fn lemma_short_words(c: ClientView, line: LineView)
    requires
        line.command.len() == 3,
    ensures
        c.receiving(line) == alive(c, line).handling(line),
        line.is("CAP"@) ==> c.receiving(line) == alive(c, line).on_cap(line),
        line.is("001"@) ==> c.receiving(line) == alive(c, line).registering(line),
        line.is("005"@) && line.params.len() > 2 ==> c.receiving(line) == alive(
            c,
            line,
        ).supporting_all(line.params.subrange(1, line.params.len() - 1)),
        line.command == "730"@ || line.command == "731"@ ==> c.receiving(line) == alive(
            c,
            line,
        ).on_monitor(line),
        line.is("433"@) || line.is("432"@) ==> c.receiving(line) == alive(c, line).on_nick_refused(
            line,
        ),
        line.command == "904"@ ==> c.receiving(line) == alive(c, line).finishing_sasl(
            Some(SaslFailure::Rejected),
        ),
        line.command == "905"@ ==> c.receiving(line) == alive(c, line).finishing_sasl(
            Some(SaslFailure::TooLong),
        ),
        line.command == "906"@ ==> c.receiving(line) == alive(c, line).finishing_sasl(
            Some(SaslFailure::Aborted),
        ),
        line.command == "907"@ ==> c.receiving(line) == alive(c, line).finishing_sasl(
            Some(SaslFailure::AlreadyAuthenticated),
        ),
        line.is("900"@) ==> c.receiving(line) == alive(c, line).on_logged_in(line),
        line.is("903"@) ==> c.receiving(line) == alive(c, line).finishing_sasl(None),
{
    reveal(ClientView::receiving);
    reveal(ClientView::handling);
    reveal(ClientView::on_rest);
    lemma_words();
    assert(lower(line.command).len() == 3);
    assert(upper(line.command).len() == 3);
    assert(severity_named(line.command) is None);
    if line.is("900"@) || line.is("903"@) || line.is("433"@) || line.is("432"@) {
        assert(lower(line.command)[2] != lower("904"@)[2]);
        assert(lower(line.command) != lower("904"@));
        assert(lower(line.command) != lower("905"@));
        assert(lower(line.command) != lower("906"@));
        assert(lower(line.command) != lower("907"@));
    }
}

/// Once the server welcomes us we are registered under the nick that it calls us by, and the host
/// is told. What we have seen so far stays.
pub proof fn law_welcome_registers(c: ClientView, line: LineView)
    requires
        line.command == "001"@,
        line.params.len() > 0,
    ensures
        ({
            let after = c.receiving(line);
            &&& after.phase == Phase::Registered
            &&& after.nick == line.params[0]
            &&& after.model.me.nick == line.params[0]
            &&& tells(c, after, seq![EventView::Registered { nick: line.params[0] }])
            &&& after.model.channels == c.model.channels
            &&& after.model.conversations == c.model.conversations
            &&& after.monitor == c.monitor
            &&& after.channel_keys == c.channel_keys
            &&& after.metadata_subscriptions == c.metadata_subscriptions
            &&& after.caps == c.caps
        }),
{
    reveal_strlit("001");
    lemma_short_words(c, line);
    reveal(ClientView::registering);
    let event = EventView::Registered { nick: line.params[0] };
    assert(c.events.push(event) =~= c.events + seq![event]);
}

/// A nick that is taken or not allowed while we register is given up for the next one of the
/// configured list, and past its end for the last one with an underscore more. The server is asked
/// for it and the host is told of both. Once registered we keep our nick, and the host sees the
/// refusal.
pub proof fn law_refused_nick_falls_back(c: ClientView, line: LineView)
    requires
        line.command == "433"@ || line.command == "432"@,
        line.params.len() > 1,
    ensures
        ({
            let after = c.receiving(line);
            let trying = if c.nick_attempt < c.config.alt_nicks.len() {
                c.config.alt_nicks[c.nick_attempt as int]
            } else {
                c.nick + seq!['_']
            };
            &&& c.phase != Phase::Registered ==> {
                &&& after.nick == trying && after.model.me.nick == trying
                &&& writes(c, after, seq![saying("NICK"@, seq![trying])])
                &&& tells(
                    c,
                    after,
                    seq![EventView::NickInUse { refused: line.params[1], trying }],
                )
                &&& c.nick_attempt < usize::MAX ==> after.nick_attempt == c.nick_attempt + 1
            }
            &&& c.phase == Phase::Registered ==> {
                &&& after.nick == c.nick && after.model == c.model && after.outbox == c.outbox
                &&& tells(c, after, seq![EventView::Raw { message: line }])
            }
        }),
{
    reveal_strlit("433");
    reveal_strlit("432");
    lemma_short_words(c, line);
    reveal(ClientView::on_nick_refused);
    let at = alive(c, line);
    let after = c.receiving(line);
    if c.phase != Phase::Registered {
        assert(c.nick.push('_') =~= c.nick + seq!['_']);
        assert(after.outbox.len() == c.outbox.len() + 1);
        lemma_writes_one(c, after, saying("NICK"@, seq![after.nick]));
        assert(after.events =~= c.events + seq![
            EventView::NickInUse { refused: line.params[1], trying: after.nick },
        ]);
    } else {
        assert(after.events =~= c.events + seq![EventView::Raw { message: line }]);
    }
}

/// The host is told of the account that we are logged in to.
pub proof fn law_account_is_told(c: ClientView, line: LineView)
    requires
        line.command == "900"@,
        line.params.len() > 2,
    ensures
        tells(c, c.receiving(line), seq![EventView::LoggedIn { account: line.params[2] }]),
        c.receiving(line).outbox == c.outbox,
        c.receiving(line).model == c.model,
        c.receiving(line).sasl == c.sasl,
        c.receiving(line).phase == c.phase,
{
    reveal_strlit("900");
    lemma_short_words(c, line);
    assert(c.receiving(line).events =~= c.events + seq![
        EventView::LoggedIn { account: line.params[2] },
    ]);
}

/// While we negotiate with nothing asked for and unanswered, the end of authentication, whichever
/// it is, ends the negotiation: registration never hangs on it. The host is told why it failed,
/// where it did.
pub proof fn law_authentication_ends(c: ClientView, line: LineView)
    requires
        c.phase == Phase::Negotiating,
        c.caps.pending.len() == 0,
        c.sasl != SaslState::Settled,
        line.command == "903"@ || line.command == "904"@ || line.command == "905"@ || line.command
            == "906"@ || line.command == "907"@,
    ensures
        ({
            let after = c.receiving(line);
            &&& after.sasl == SaslState::Settled
            &&& after.phase == Phase::Registering
            &&& writes(c, after, seq![saying("CAP"@, seq!["END"@])])
            &&& line.command == "903"@ ==> after.events == c.events
            &&& line.command == "904"@ ==> tells(
                c,
                after,
                seq![EventView::SaslFailed { reason: SaslFailure::Rejected }],
            )
            &&& line.command == "905"@ ==> tells(
                c,
                after,
                seq![EventView::SaslFailed { reason: SaslFailure::TooLong }],
            )
            &&& line.command == "906"@ ==> tells(
                c,
                after,
                seq![EventView::SaslFailed { reason: SaslFailure::Aborted }],
            )
            &&& line.command == "907"@ ==> tells(
                c,
                after,
                seq![EventView::SaslFailed { reason: SaslFailure::AlreadyAuthenticated }],
            )
        }),
{
    lemma_words();
    reveal_strlit("903");
    lemma_short_words(c, line);
    reveal(ClientView::finishing_sasl);
    reveal(ClientView::settling);
    let after = c.receiving(line);
    lemma_writes_one(c, after, saying("CAP"@, seq!["END"@]));
    if line.command != "903"@ {
        let reason = failure_named(line.command)->0;
        assert(after.events =~= c.events + seq![EventView::SaslFailed { reason }]);
    }
}

/// A ping is answered with its own token, and nothing else comes of it.
pub proof fn law_ping_gets_its_pong(c: ClientView, line: LineView)
    requires
        line.command == "PING"@,
        line.params.len() > 0,
    ensures
        writes(c, c.receiving(line), seq![saying("PONG"@, seq![line.params.last()])]),
        c.receiving(line).events == c.events,
        c.receiving(line).model == c.model,
        c.receiving(line).phase == c.phase,
{
    reveal(ClientView::receiving);
    crate::state::law_ping_is_answered(alive(c, line), line);
    lemma_writes_one(c, c.receiving(line), saying("PONG"@, seq![line.params.last()]));
}

/// A standard reply is told as it is: how bad it is, the command and the code that it is about,
/// what stands between them and the text, and the text.
pub proof fn law_reply_is_told(c: ClientView, line: LineView, severity: Severity)
    requires
        line.params.len() >= 3,
        line.command == "FAIL"@ && severity == Severity::Fail || line.command == "WARN"@ && severity
            == Severity::Warn || line.command == "NOTE"@ && severity == Severity::Note,
    ensures
        tells(
            c,
            c.receiving(line),
            seq![
                EventView::Reply {
                    severity,
                    command: line.params[0],
                    code: line.params[1],
                    context: line.params.subrange(2, line.params.len() - 1),
                    text: line.params.last(),
                },
            ],
        ),
        c.receiving(line).outbox == c.outbox,
        c.receiving(line).model == c.model,
{
    reveal(ClientView::receiving);
    reveal(ClientView::handling);
    reveal(ClientView::on_reply);
    lemma_words();
    reveal_strlit("FAIL");
    reveal_strlit("WARN");
    reveal_strlit("NOTE");
    assert(upper("FAIL"@) =~= "FAIL"@);
    assert(upper("WARN"@) =~= "WARN"@);
    assert(upper("NOTE"@) =~= "NOTE"@);
    assert(lower("FAIL"@)[0] == 'f');
    assert(lower("WARN"@)[0] == 'w');
    assert(lower("NOTE"@)[0] == 'n');
    assert(lower(line.command).len() == 4);
    assert(line.params.subrange(2, 2) =~= Seq::<Seq<char>>::empty());
    assert(c.receiving(line).events =~= c.events + seq![
        EventView::Reply {
            severity,
            command: line.params[0],
            code: line.params[1],
            context: line.params.subrange(2, line.params.len() - 1),
            text: line.params.last(),
        },
    ]);
}

/// True for a line that is about what is said and who is where, and not about the connection: none
/// of the words that a connection answers itself, no typing indicator and no voice signalling.
pub open spec fn is_about_people(line: LineView) -> bool {
    &&& !line.is("PONG"@) && !line.is("PING"@) && !line.is("CAP"@)
    &&& !line.is("001"@) && !line.is("005"@) && !line.is("CMDSLIST"@)
    &&& line.command != "730"@ && line.command != "731"@
    &&& upper(line.command) != "FAIL"@ && upper(line.command) != "WARN"@
    &&& upper(line.command) != "NOTE"@
    &&& !line.is("AUTHENTICATE"@) && !line.is("433"@) && !line.is("432"@)
    &&& line.command != "904"@ && line.command != "905"@
    &&& line.command != "906"@ && line.command != "907"@
    &&& !line.is("900"@) && !line.is("903"@) && !line.is("BATCH"@)
    &&& line.is("TAGMSG"@) ==> line.tag("+typing"@) is None && line.tag("+obsidianirc/rtc"@) is None
}

proof fn lemma_about_people(c: ClientView, line: LineView)
    requires
        is_about_people(line),
    ensures
        c.receiving(line) == alive(c, line).on_content(line),
{
    reveal(ClientView::receiving);
    reveal(ClientView::handling);
    reveal(ClientView::on_rest);
}

/// What is said and who is where reaches what is shown at once, as the server says it and as news.
/// The host is told of every change in order, and of a line that changes nothing as it came.
pub proof fn law_news_reaches_the_model(c: ClientView, line: LineView)
    requires
        is_about_people(line),
        line.tag("batch"@) is None || !c.batches.by_reference.contains_key(
            line.tag("batch"@)->0,
        ),
    ensures
        ({
            let after = c.receiving(line);
            let o = on_line(c.model, c.isupport, c.latest_ms, false, line);
            &&& after.model == o.model
            &&& after.nick == o.model.me.nick
            &&& after.latest_ms == o.latest_ms
            &&& o.changes.len() > 0 ==> after.events.len() == c.events.len() + o.changes.len()
            &&& forall|i: int|
                0 <= i < o.changes.len() ==> #[trigger] after.events[c.events.len() + i] == (
                EventView::Changed { change: o.changes[i] })
            &&& o.changes.len() == 0 ==> tells(c, after, seq![EventView::Raw { message: line }])
            &&& after.events.take(c.events.len() as int) == c.events
            &&& after.phase == c.phase && after.caps == c.caps && after.batches == c.batches
            &&& (forall|i: int| 0 <= i < o.changes.len() ==> !(#[trigger] o.changes[i] is Joined))
                ==> after.outbox == c.outbox
        }),
{
    lemma_about_people(c, line);
    reveal(ClientView::folding);
    let after = c.receiving(line);
    let at = alive(c, line);
    let o = on_line(c.model, c.isupport, c.latest_ms, false, line);
    assert(o == on_line(at.model, at.isupport, at.latest_ms, false, line));
    assert(after.events.take(c.events.len() as int) =~= c.events);
    if o.changes.len() == 0 {
        assert(after.events =~= c.events + seq![EventView::Raw { message: line }]);
    } else {
        let more = o.changes.map_values(crate::state::changed());
        assert forall|i: int| 0 <= i < o.changes.len() implies #[trigger] after.events[c.events.len()
            + i] == (EventView::Changed { change: o.changes[i] }) by {
            assert(after.events[c.events.len() + i] == more[i]);
        }
    }
    if forall|i: int| 0 <= i < o.changes.len() ==> !(#[trigger] o.changes[i] is Joined) {
        lemma_nobody_joined(c.isupport, o.changes);
        let none = Seq::<LineView>::empty().map_values(crate::state::as_written());
        assert(c.outbox + none =~= c.outbox);
    }
}

proof fn lemma_nobody_joined(f: FeaturesView, changes: Seq<ChangeView>)
    requires
        forall|i: int| 0 <= i < changes.len() ==> !(#[trigger] changes[i] is Joined),
    ensures
        who_lines(f, changes) == Seq::<LineView>::empty(),
    decreases changes.len(),
{
    if changes.len() > 0 {
        assert forall|i: int| 0 <= i < changes.drop_last().len() implies !(
        #[trigger] changes.drop_last()[i] is Joined) by {
            assert(changes.drop_last()[i] == changes[i]);
        }
        lemma_nobody_joined(f, changes.drop_last());
        assert(!(changes[changes.len() - 1] is Joined));
    }
}

/// Once we are in a channel we ask who else is, with their accounts where the server can tell them.
pub proof fn law_joined_channel_is_asked_about(c: ClientView, line: LineView, channel: Seq<char>)
    requires
        is_about_people(line),
        line.tag("batch"@) is None || !c.batches.by_reference.contains_key(
            line.tag("batch"@)->0,
        ),
        on_line(c.model, c.isupport, c.latest_ms, false, line).changes == seq![
            ChangeView::Joined { channel },
        ],
    ensures
        c.isupport.tokens.contains_key("WHOX"@) ==> writes(
            c,
            c.receiving(line),
            seq![saying("WHO"@, seq![channel, "%tcuhnfar,332"@])],
        ),
        !c.isupport.tokens.contains_key("WHOX"@) ==> writes(
            c,
            c.receiving(line),
            seq![saying("WHO"@, seq![channel])],
        ),
{
    lemma_about_people(c, line);
    reveal(ClientView::folding);
    let at = alive(c, line);
    let o = on_line(at.model, at.isupport, at.latest_ms, false, line);
    let lines = who_lines(c.isupport, o.changes);
    assert(o.changes.drop_last() =~= Seq::empty());
    reveal_with_fuel(who_lines, 2);
    assert(lines =~= seq![crate::state::who_line(c.isupport, channel)]);
    lemma_writes(c, c.receiving(line), lines);
}

/// A line of an open batch waits in it: nothing is shown, told or written until the batch is
/// closed, and no other batch is touched. A line whose id the batch already has is not kept twice,
/// and past its bound a batch takes no more.
pub proof fn law_batched_line_waits(
    c: ClientView,
    line: LineView,
    reference: Seq<char>,
    other: Seq<char>,
)
    requires
        is_about_people(line),
        line.tag("batch"@) == Some(reference),
        c.batches.by_reference.contains_key(reference),
        other != reference,
    ensures
        ({
            let after = c.receiving(line);
            let batch = c.batches.by_reference[reference];
            let known = line.tag("msgid"@) is Some && exists|i: int|
                0 <= i < batch.messages.len() && (#[trigger] batch.messages[i]).tag("msgid"@)
                    == line.tag("msgid"@);
            let full = batch.overflowed || batch.messages.len() >= c.batches.max_buffered;
            &&& after.model == c.model && after.events == c.events && after.outbox == c.outbox
            &&& after.batches.by_reference.contains_key(reference)
            &&& after.batches.by_reference[reference].kind == batch.kind
            &&& after.batches.by_reference[reference].params == batch.params
            &&& after.batches.by_reference[reference].parent == batch.parent
            &&& !known && !full ==> after.batches.by_reference[reference].messages
                == batch.messages + seq![line]
            &&& known || full ==> after.batches.by_reference[reference].messages == batch.messages
            &&& after.batches.by_reference.contains_key(other)
                == c.batches.by_reference.contains_key(other)
            &&& c.batches.by_reference.contains_key(other) ==> after.batches.by_reference[other]
                == c.batches.by_reference[other]
        }),
{
    lemma_about_people(c, line);
    let batch = c.batches.by_reference[reference];
    assert(batch.messages.push(line) =~= batch.messages + seq![line]);
}

/// A batch that is opened is held under its reference with what was said of it, and empty, unless
/// its reference is taken or as many are open as may be.
pub proof fn law_batch_opens(c: ClientView, line: LineView, reference: Seq<char>)
    requires
        line.command == "BATCH"@,
        line.params.len() > 1,
        line.params[0] == seq!['+'] + reference,
    ensures
        ({
            let after = c.receiving(line);
            let taken = c.batches.by_reference.contains_key(reference);
            let room = c.batches.by_reference.len() < c.batches.max_open;
            &&& after.model == c.model && after.events == c.events && after.outbox == c.outbox
            &&& !taken && room ==> after.batches.by_reference.contains_key(reference)
                && after.batches.by_reference[reference] == (BatchView {
                kind: line.params[1],
                params: line.params.subrange(2, line.params.len() as int),
                parent: line.tag("batch"@),
                messages: Seq::empty(),
                overflowed: false,
            })
            &&& taken || !room ==> after.batches == c.batches
        }),
{
    lemma_batch_line(c, line);
    reveal(ClientView::on_batch);
    assert(line.params[0][0] == '+');
    assert(line.params[0].skip(1) =~= reference);
    assert(line.params.skip(2) =~= line.params.subrange(2, line.params.len() as int));
}

proof fn lemma_batch_line(c: ClientView, line: LineView)
    requires
        line.command == "BATCH"@,
    ensures
        c.receiving(line) == alive(c, line).on_batch(line),
{
    reveal(ClientView::receiving);
    reveal(ClientView::handling);
    reveal(ClientView::on_rest);
    lemma_words();
    reveal_strlit("BATCH");
    assert(lower(line.command).len() == 5);
    assert(upper(line.command).len() == 5);
    assert("BATCH"@.len() == 5);
}

/// What is shown after these lines came one after the other, as history or as news, and the latest
/// instant seen by then.
pub open spec fn told(
    m: ModelView,
    f: FeaturesView,
    latest_ms: u64,
    historical: bool,
    lines: Seq<LineView>,
) -> (ModelView, u64)
    decreases lines.len(),
{
    if lines.len() == 0 {
        (m, latest_ms)
    } else {
        let (before, at) = told(m, f, latest_ms, historical, lines.drop_last());
        let o = on_line(before, f, at, historical, lines.last());
        (o.model, o.latest_ms)
    }
}

/// A batch that is closed is gone, and what waited in it is shown in the order in which it came: as
/// history where the batch, or the one that it stands in, is of that kind, and otherwise as news.
pub proof fn law_closed_batch_is_shown(c: ClientView, line: LineView, reference: Seq<char>)
    requires
        line.command == "BATCH"@,
        line.params.len() > 0,
        line.params[0] == seq!['-'] + reference,
        c.batches.by_reference.contains_key(reference),
    ensures
        ({
            let after = c.receiving(line);
            let batch = c.batches.by_reference[reference];
            let as_history = told(c.model, c.isupport, c.latest_ms, true, batch.messages).0;
            let as_news = told(c.model, c.isupport, c.latest_ms, false, batch.messages).0;
            let around = batch.parent->0;
            &&& !after.batches.by_reference.contains_key(reference)
            &&& batch.kind == "chathistory"@ ==> after.model == as_history
            &&& batch.kind != "chathistory"@ && batch.parent is None ==> after.model == as_news
            &&& batch.kind != "chathistory"@ && batch.parent is Some && around != reference
                && c.batches.by_reference.contains_key(around)
                && c.batches.by_reference[around].kind == "chathistory"@ ==> after.model
                == as_history
            &&& batch.kind != "chathistory"@ && batch.parent is Some && !(
            c.batches.by_reference.contains_key(around)) ==> after.model == as_news
        }),
{
    lemma_batch_line(c, line);
    reveal(ClientView::on_batch);
    reveal(ClientView::draining);
    let at = alive(c, line);
    let batch = c.batches.by_reference[reference];
    assert(line.params[0][0] == '-');
    assert(line.params[0].skip(1) =~= reference);
    let open = ClientView { batches: at.batches.closing(line), ..at };
    lemma_told(open, true, batch.messages);
    lemma_told(open, false, batch.messages);
    if batch.parent is Some {
        let around = batch.parent->0;
        let kind = "chathistory"@;
        if around != reference && c.batches.by_reference.contains_key(around)
            && c.batches.by_reference[around].kind == kind {
            assert(open.batches.is_kind(around, kind, 0));
        }
        if !c.batches.by_reference.contains_key(around) {
            assert forall|n: nat| !open.batches.is_kind(around, kind, n) by {
                lemma_no_ancestors(open.batches, around, n);
            }
        }
    }
}

proof fn lemma_no_ancestors(b: crate::batch::BatchesView, reference: Seq<char>, n: nat)
    requires
        !b.by_reference.contains_key(reference),
    ensures
        n > 0 ==> b.ancestor(reference, n) is None,
        n == 0 ==> b.ancestor(reference, n) == Some(reference),
    decreases n,
{
    if n > 0 {
        lemma_no_ancestors(b, reference, (n - 1) as nat);
    }
}

proof fn lemma_told(c: ClientView, historical: bool, lines: Seq<LineView>)
    ensures
        c.folding_all(lines, historical).model == told(
            c.model,
            c.isupport,
            c.latest_ms,
            historical,
            lines,
        ).0,
        c.folding_all(lines, historical).latest_ms == told(
            c.model,
            c.isupport,
            c.latest_ms,
            historical,
            lines,
        ).1,
        c.folding_all(lines, historical).isupport == c.isupport,
        c.folding_all(lines, historical).batches == c.batches,
    decreases lines.len(),
{
    reveal(ClientView::folding);
    if lines.len() > 0 {
        lemma_told(c, historical, lines.drop_last());
    }
}

/// True when a target names this nick, alone or as the beginning of a mask.
pub open spec fn names(target: Seq<char>, nick: Seq<char>) -> bool {
    &&& !nick.contains('!')
    &&& target == nick || nick.len() < target.len() && target.take(nick.len() as int) == nick
        && target[nick.len() as int] == '!'
}

proof fn lemma_names(target: Seq<char>, nick: Seq<char>)
    requires
        names(target, nick),
    ensures
        crate::text::before_first(target, '!') == nick,
{
    assert forall|i: int| 0 <= i < nick.len() implies target[i] != '!' by {
        assert(target.take(nick.len() as int)[i] == target[i]);
        assert(nick[i] == target[i]);
        assert(nick.contains(nick[i]));
    }
    crate::text::lemma_first_at_is(target, '!', nick.len());
    assert(target.take(nick.len() as int) =~= nick);
}

/// The server says who of those that we watch is there: each is told by name, in order, and is then
/// known to be online, or no longer. Whoever is not named stays as they were.
pub proof fn law_presence_is_told(
    c: ClientView,
    line: LineView,
    nicks: Seq<Seq<char>>,
    i: int,
    other: Seq<char>,
)
    requires
        line.command == "730"@ || line.command == "731"@,
        line.params.len() > 1,
        targets_in(line.params[1]).len() == nicks.len(),
        forall|j: int|
            0 <= j < nicks.len() ==> names(
                targets_in(line.params[1])[j],
                #[trigger] nicks[j],
            ),
        0 <= i < nicks.len(),
        forall|j: int| 0 <= j < nicks.len() ==> c.isupport.fold(#[trigger] nicks[j]) != other,
    ensures
        ({
            let after = c.receiving(line);
            let online = line.command == "730"@;
            let who = c.isupport.fold(nicks[i]);
            &&& after.events.len() == c.events.len() + nicks.len()
            &&& after.events.take(c.events.len() as int) == c.events
            &&& after.events[c.events.len() + i] == (EventView::Presence {
                nick: nicks[i],
                online,
            })
            &&& after.monitor.online.contains(who) == online
            &&& online ==> after.monitor.watching.contains(who)
            &&& !online ==> after.monitor.watching.contains(who) == c.monitor.watching.contains(who)
            &&& after.monitor.online.contains(other) == c.monitor.online.contains(other)
            &&& after.monitor.watching.contains(other) == c.monitor.watching.contains(other)
            &&& after.model == c.model && after.outbox == c.outbox
        }),
{
    lemma_words();
    lemma_short_words(c, line);
    reveal(ClientView::on_monitor);
    let online = line.command == "730"@;
    assert(lower(line.command)[2] == if online {
        '0'
    } else {
        '1'
    });
    assert(line.is("730"@) == online);
    lemma_seen(alive(c, line), targets_in(line.params[1]), nicks, online, i, other);
}

proof fn lemma_seen(
    c: ClientView,
    targets: Seq<Seq<char>>,
    nicks: Seq<Seq<char>>,
    online: bool,
    i: int,
    other: Seq<char>,
)
    requires
        targets.len() == nicks.len(),
        forall|j: int| 0 <= j < nicks.len() ==> names(targets[j], #[trigger] nicks[j]),
        -1 <= i < nicks.len(),
        forall|j: int| 0 <= j < nicks.len() ==> c.isupport.fold(#[trigger] nicks[j]) != other,
    ensures
        ({
            let after = c.seeing_all(targets, online);
            let who = c.isupport.fold(nicks[i]);
            &&& after == (ClientView { events: after.events, monitor: after.monitor, ..c })
            &&& after.events.len() == c.events.len() + nicks.len()
            &&& after.events.take(c.events.len() as int) == c.events
            &&& i >= 0 ==> after.events[c.events.len() + i] == (EventView::Presence {
                nick: nicks[i],
                online,
            })
            &&& i >= 0 ==> after.monitor.online.contains(who) == online
            &&& i >= 0 && online ==> after.monitor.watching.contains(who)
            &&& !online ==> after.monitor.watching == c.monitor.watching
            &&& after.monitor.online.contains(other) == c.monitor.online.contains(other)
            &&& after.monitor.watching.contains(other) == c.monitor.watching.contains(other)
        }),
    decreases targets.len(),
{
    if targets.len() == 0 {
        assert(c.events.take(c.events.len() as int) =~= c.events);
    } else {
        let n = nicks.len() - 1;
        let less = nicks.drop_last();
        assert forall|j: int| 0 <= j < less.len() implies names(
            targets.drop_last()[j],
            #[trigger] less[j],
        ) by {
            assert(less[j] == nicks[j]);
        }
        assert forall|j: int| 0 <= j < less.len() implies c.isupport.fold(#[trigger] less[j])
            != other by {
            assert(less[j] == nicks[j]);
        }
        let k = if i < n {
            i
        } else {
            -1
        };
        lemma_seen(c, targets.drop_last(), less, online, k, other);
        lemma_names(targets[n], nicks[n]);
        assert(c.isupport.fold(nicks[n]) != other);
        let before = c.seeing_all(targets.drop_last(), online);
        let after = c.seeing_all(targets, online);
        assert(after.events.take(c.events.len() as int) =~= before.events.take(
            c.events.len() as int,
        ));
        if i < n && i >= 0 {
            assert(less[i] == nicks[i]);
        }
    }
}

/// Someone who starts to compose a message is shown as composing it where it goes, until they stop
/// or six seconds have passed; the host is told when that changes. A message to us is composed in
/// the conversation with whom it comes from.
pub proof fn law_typing_is_shown(
    c: ClientView,
    line: LineView,
    place: Seq<char>,
    other: Seq<char>,
)
    requires
        line.command == "TAGMSG"@,
        line.params.len() > 0,
        line.source is Some,
        line.tag("+typing"@) is Some,
        place == if c.isupport.is_channel(line.params[0]) {
            line.params[0]
        } else {
            line.source->0.name
        },
        c.model.channels.contains_key(c.isupport.fold(place)),
        other != c.isupport.fold(line.source->0.name),
    ensures
        ({
            let after = c.receiving(line);
            let at = c.isupport.fold(place);
            let who = c.isupport.fold(line.source->0.name);
            let typing = line.tag("+typing"@)->0 == "active"@;
            let was = c.model.channels[at].typing.contains(who);
            let deadline = DeadlineView::Typing(at, who);
            &&& after.model.channels.contains_key(at)
            &&& after.model.channels[at].typing.contains(who) == typing
            &&& after.model.channels[at].typing.contains(other)
                == c.model.channels[at].typing.contains(other)
            &&& after.timers.contains_key(deadline) == typing
            &&& typing && c.monotonic_ms <= u64::MAX - 6_000 ==> after.timers[deadline]
                == c.monotonic_ms + 6_000
            &&& was != typing ==> tells(
                c,
                after,
                seq![
                    EventView::Typing { target: place, nick: line.source->0.name, typing },
                ],
            )
            &&& was == typing ==> after.events == c.events
            &&& after.outbox == c.outbox
        }),
{
    reveal(ClientView::receiving);
    reveal(ClientView::handling);
    reveal(ClientView::on_typing);
    lemma_words();
    reveal_strlit("TAGMSG");
    let at = c.isupport.fold(place);
    let who = c.isupport.fold(line.source->0.name);
    let typing = line.tag("+typing"@)->0 == "active"@;
    let after = c.receiving(line);
    if c.model.channels[at].typing.contains(who) != typing {
        assert(after.events =~= c.events + seq![
            EventView::Typing { target: place, nick: line.source->0.name, typing },
        ]);
    }
}

/// In a private conversation it is the same.
pub proof fn law_private_typing_is_shown(c: ClientView, line: LineView, other: Seq<char>)
    requires
        line.command == "TAGMSG"@,
        line.params.len() > 0,
        line.source is Some,
        line.tag("+typing"@) is Some,
        !c.isupport.is_channel(line.params[0]),
        c.model.conversations.contains_key(c.isupport.fold(line.source->0.name)),
        !c.model.channels.contains_key(c.isupport.fold(line.source->0.name)),
        other != c.isupport.fold(line.source->0.name),
    ensures
        ({
            let after = c.receiving(line);
            let who = c.isupport.fold(line.source->0.name);
            let typing = line.tag("+typing"@)->0 == "active"@;
            let was = c.model.conversations[who].typing.contains(who);
            &&& after.model.conversations.contains_key(who)
            &&& after.model.conversations[who].typing.contains(who) == typing
            &&& after.model.conversations[who].typing.contains(other)
                == c.model.conversations[who].typing.contains(other)
            &&& after.timers.contains_key(DeadlineView::Typing(who, who)) == typing
            &&& was != typing ==> tells(
                c,
                after,
                seq![
                    EventView::Typing {
                        target: line.source->0.name,
                        nick: line.source->0.name,
                        typing,
                    },
                ],
            )
            &&& was == typing ==> after.events == c.events
        }),
{
    reveal(ClientView::receiving);
    reveal(ClientView::handling);
    reveal(ClientView::on_typing);
    lemma_words();
    reveal_strlit("TAGMSG");
    let who = c.isupport.fold(line.source->0.name);
    let typing = line.tag("+typing"@)->0 == "active"@;
    let after = c.receiving(line);
    if c.model.conversations[who].typing.contains(who) != typing {
        assert(after.events =~= c.events + seq![
            EventView::Typing {
                target: line.source->0.name,
                nick: line.source->0.name,
                typing,
            },
        ]);
    }
}

/// Voice signalling that can be read is told as it was sent and reaches the room of that channel,
/// which there is from then on; no other room is touched. What cannot be read is counted and
/// dropped.
pub proof fn law_voice_reaches_its_room(c: ClientView, line: LineView, other: Seq<char>)
    requires
        line.command == "TAGMSG"@,
        line.params.len() > 0,
        line.tag("+typing"@) is None,
        line.tag("+obsidianirc/rtc"@) is Some,
        other != c.isupport.fold(line.params[0]),
    ensures
        ({
            let after = c.receiving(line);
            let read = decoded(line.tag("+obsidianirc/rtc"@)->0);
            let at = c.isupport.fold(line.params[0]);
            let room = if c.rooms.contains_key(at) {
                c.rooms[at]
            } else {
                RoomView::empty(line.params[0])
            };
            &&& read is Some ==> tells(
                c,
                after,
                seq![EventView::Voice { channel: line.params[0], signal: read->0 }],
            )
            &&& read is Some ==> after.rooms.contains_key(at) && after.rooms[at] == room.after(
                c.nick,
                read->0,
                c.isupport.casemapping(),
            )
            &&& read is Some ==> after.dropped_lines == c.dropped_lines
            &&& read is None ==> after.events == c.events && after.rooms == c.rooms
            &&& read is None && c.dropped_lines < u64::MAX ==> after.dropped_lines
                == c.dropped_lines + 1
            &&& after.rooms.contains_key(other) == c.rooms.contains_key(other)
            &&& c.rooms.contains_key(other) ==> after.rooms[other] == c.rooms[other]
            &&& after.model == c.model && after.outbox == c.outbox
        }),
{
    reveal(ClientView::receiving);
    reveal(ClientView::handling);
    reveal(ClientView::on_rtc);
    lemma_words();
    reveal_strlit("TAGMSG");
    let read = decoded(line.tag("+obsidianirc/rtc"@)->0);
    if read is Some {
        assert(c.receiving(line).events =~= c.events + seq![
            EventView::Voice { channel: line.params[0], signal: read->0 },
        ]);
    }
}

/// The host is told that the commands changed that we may use. What a list of them does is what the
/// same words do one by one.
pub proof fn law_commands_are_learnt(c: ClientView, line: LineView, name: Seq<char>)
    requires
        line.command == "CMDSLIST"@,
        line.params.len() == 1,
        words(line.params[0]).len() == 1,
    ensures
        ({
            let after = c.receiving(line);
            let token = words(line.params[0])[0];
            &&& tells(c, after, seq![EventView::CommandsChanged])
            &&& after.model == c.model && after.outbox == c.outbox
            &&& token == seq!['+'] + name ==> after.commands.contains(upper(name))
            &&& token == seq!['-'] + name ==> !after.commands.contains(upper(name))
        }),
{
    reveal(ClientView::receiving);
    reveal(ClientView::handling);
    lemma_words();
    reveal_strlit("CMDSLIST");
    assert(c.receiving(line).events =~= c.events + seq![EventView::CommandsChanged]);
    let token = words(line.params[0])[0];
    assert(line.params.drop_last() =~= Seq::empty());
    reveal_with_fuel(crate::extensions::all_words, 2);
    assert(crate::extensions::all_words(line.params) =~= seq![token]);
    assert(seq![token].drop_last() =~= Seq::empty());
    reveal_with_fuel(crate::extensions::allowed_after, 2);
    if token == seq!['+'] + name || token == seq!['-'] + name {
        assert(token.skip(1) =~= name);
    }
}

/// The name of a capability and the value that may follow it.
pub open spec fn reads_as(token: Seq<char>, name: Seq<char>, value: Option<Seq<char>>) -> bool {
    &&& !name.contains('=')
    &&& token == match value {
        Some(value) => name + seq!['='] + value,
        None => name,
    }
}

proof fn lemma_reads_as(token: Seq<char>, name: Seq<char>, value: Option<Seq<char>>)
    requires
        reads_as(token, name, value),
    ensures
        valued(token) == (name, value),
{
    assert forall|i: int| 0 <= i < name.len() implies token[i] != '=' by {
        assert(token[i] == name[i]);
        assert(name.contains(name[i]));
    }
    crate::text::lemma_first_at_is(token, '=', name.len());
    assert(token.take(name.len() as int) =~= name);
    if value is Some {
        assert(token.skip(name.len() as int + 1) =~= value->0);
    }
}

/// What the server offers is held with the value that it is offered with, and a later offer
/// replaces an earlier one. While the list goes on nothing is asked for.
pub proof fn law_offer_is_held(
    c: ClientView,
    line: LineView,
    name: Seq<char>,
    value: Option<Seq<char>>,
    other: Seq<char>,
)
    requires
        line.command == "CAP"@,
        line.params.len() == 4,
        line.params[1] == "LS"@,
        line.params[2] == "*"@,
        words(line.params[3]).len() == 1,
        reads_as(words(line.params[3])[0], name, value),
        other != name,
    ensures
        ({
            let after = c.receiving(line);
            &&& after.caps.available.contains_key(name)
            &&& after.caps.available[name] == value
            &&& after.caps.available.contains_key(other) == c.caps.available.contains_key(other)
            &&& c.caps.available.contains_key(other) ==> after.caps.available[other]
                == c.caps.available[other]
            &&& after.caps.acknowledged == c.caps.acknowledged
            &&& after.caps.pending == c.caps.pending
            &&& after.outbox == c.outbox && after.events == c.events && after.phase == c.phase
        }),
{
    lemma_cap_words();
    lemma_short_words(c, line);
    reveal(ClientView::on_cap);
    let token = words(line.params[3])[0];
    lemma_reads_as(token, name, value);
    assert(words(line.params[3]) =~= seq![token]);
    assert(seq![token].drop_last() =~= Seq::empty());
    reveal_with_fuel(crate::caps::CapsView::offering, 2);
}

proof fn lemma_cap_words()
    ensures
        "CAP"@.len() == 3,
        "LS"@.len() == 2 && upper("LS"@) == "LS"@,
        "NEW"@.len() == 3 && upper("NEW"@) == "NEW"@ && "NEW"@[0] == 'N' && "NEW"@[1] == 'E',
        "DEL"@.len() == 3 && upper("DEL"@) == "DEL"@ && "DEL"@[0] == 'D',
        "ACK"@.len() == 3 && upper("ACK"@) == "ACK"@ && "ACK"@[0] == 'A',
        "NAK"@.len() == 3 && upper("NAK"@) == "NAK"@ && "NAK"@[0] == 'N' && "NAK"@[1] == 'A',
        "*"@.len() == 1,
{
    reveal_strlit("CAP");
    reveal_strlit("LS");
    reveal_strlit("NEW");
    reveal_strlit("DEL");
    reveal_strlit("ACK");
    reveal_strlit("NAK");
    reveal_strlit("*");
    assert(upper("LS"@) =~= "LS"@);
    assert(upper("NEW"@) =~= "NEW"@);
    assert(upper("DEL"@) =~= "DEL"@);
    assert(upper("ACK"@) =~= "ACK"@);
    assert(upper("NAK"@) =~= "NAK"@);
}

/// Once the list of what the server offers is complete, or more is offered later, each capability
/// that we can use, that is offered and that is neither held nor asked for is asked for in a line
/// of its own; what we cannot use, what is not offered and what is held already is not. What is
/// asked for is waited for.
pub proof fn law_usable_offer_is_asked_for(
    c: ClientView,
    line: LineView,
    name: Seq<char>,
    value: Option<Seq<char>>,
)
    requires
        line.command == "CAP"@,
        line.params.len() == 3,
        line.params[1] == "LS"@ || line.params[1] == "NEW"@,
        line.params[2] != "*"@,
        words(line.params[2]).len() == 1,
        reads_as(words(line.params[2])[0], name, value),
        wanted().contains(name),
        !c.caps.acknowledged.contains_key(name),
        !c.caps.pending.contains(name),
    ensures
        ({
            let after = c.receiving(line);
            &&& exists|i: int|
                c.outbox.len() <= i < after.outbox.len() && #[trigger] after.outbox[i] == bytes_of(
                    saying("CAP"@, seq!["REQ"@, name]),
                )
            &&& after.caps.pending.contains(name)
            &&& after.caps.available.contains_key(name)
            &&& after.phase == c.phase && after.events == c.events
            &&& forall|i: int|
                c.outbox.len() <= i < after.outbox.len() ==> exists|asked: Seq<char>|
                    {
                        &&& #[trigger] wanted().contains(asked)
                        &&& #[trigger] after.outbox[i] == bytes_of(
                            saying("CAP"@, seq!["REQ"@, asked]),
                        )
                        &&& !c.caps.acknowledged.contains_key(asked)
                        &&& !c.caps.pending.contains(asked)
                        &&& asked == name || c.caps.available.contains_key(asked)
                    }
        }),
{
    lemma_cap_words();
    lemma_short_words(c, line);
    reveal(ClientView::on_cap);
    let token = words(line.params[2])[0];
    lemma_reads_as(token, name, value);
    assert(words(line.params[2]) =~= seq![token]);
    assert(seq![token].drop_last() =~= Seq::empty());
    reveal_with_fuel(crate::caps::CapsView::offering, 2);
    let caps = c.caps.offering(seq![token]);
    assert(caps.available == c.caps.available.insert(name, value));
    let ask = caps.to_request();
    let keep = caps.wants();
    let k = wanted().index_of(name);
    wanted().lemma_filter_contains(keep, k);
    let i = ask.index_of(name);
    let after = c.receiving(line);
    let lines = ask.map_values(crate::state::cap_request());
    assert(after.outbox =~= c.outbox + lines.map_values(crate::state::as_written()));
    lemma_writes(c, after, lines);
    assert(lines[i] == saying("CAP"@, seq!["REQ"@, name]));
    assert(after.outbox[c.outbox.len() + i] == bytes_of(saying("CAP"@, seq!["REQ"@, name])));
    assert((c.caps.pending + ask)[c.caps.pending.len() + i] == name);
    assert forall|i: int| c.outbox.len() <= i < after.outbox.len() implies exists|asked: Seq<char>|
        {
            &&& #[trigger] wanted().contains(asked)
            &&& #[trigger] after.outbox[i] == bytes_of(saying("CAP"@, seq!["REQ"@, asked]))
            &&& !c.caps.acknowledged.contains_key(asked)
            &&& !c.caps.pending.contains(asked)
            &&& asked == name || c.caps.available.contains_key(asked)
        } by {
        let j = i - c.outbox.len();
        let asked = ask[j];
        wanted().lemma_filter_pred(keep, j);
        wanted().lemma_filter_contains_rev(keep, asked);
        assert(lines[j] == saying("CAP"@, seq!["REQ"@, asked]));
        assert(after.outbox[c.outbox.len() + j] == bytes_of(lines[j]));
        assert(wanted().contains(asked));
    }
}

/// Granting a capability holds it, with the value that it is granted with or else the one that it
/// was offered with, ends the wait for it and tells the host. Granting that it be given up ends it.
pub proof fn law_granted_is_held(
    c: ClientView,
    line: LineView,
    name: Seq<char>,
    value: Option<Seq<char>>,
    other: Seq<char>,
)
    requires
        line.command == "CAP"@,
        line.params.len() == 3,
        line.params[1] == "ACK"@,
        words(line.params[2]).len() == 1,
        reads_as(words(line.params[2])[0], name, value),
        name.len() > 0 && name[0] != '-',
        other != name,
    ensures
        ({
            let after = c.receiving(line);
            &&& after.caps.acknowledged.contains_key(name)
            &&& value is Some ==> after.caps.acknowledged[name] == value
            &&& value is None && c.caps.available.contains_key(name)
                ==> after.caps.acknowledged[name] == c.caps.available[name]
            &&& value is None && !c.caps.available.contains_key(name)
                ==> after.caps.acknowledged[name] is None
            &&& after.caps.acknowledged.contains_key(other) == c.caps.acknowledged.contains_key(
                other,
            )
            &&& c.caps.acknowledged.contains_key(other) ==> after.caps.acknowledged[other]
                == c.caps.acknowledged[other]
            &&& !after.caps.pending.contains(name)
            &&& after.caps.pending.contains(other) == c.caps.pending.contains(other)
            &&& after.caps.available == c.caps.available
            &&& after.events.len() > c.events.len()
            &&& after.events.take(c.events.len() as int) == c.events
            &&& after.events[c.events.len() as int] == (EventView::CapAcknowledged {
                names: seq![name],
            })
        }),
{
    lemma_cap_words();
    lemma_short_words(c, line);
    reveal(ClientView::on_cap);
    reveal(ClientView::settling);
    let token = words(line.params[2])[0];
    lemma_reads_as(token, name, value);
    assert(token[0] == name[0]);
    assert(words(line.params[2]) =~= seq![token]);
    assert(seq![token].drop_last() =~= Seq::empty());
    reveal_with_fuel(crate::caps::CapsView::acknowledging, 2);
    reveal_with_fuel(granted, 2);
    assert(granted(seq![token]) =~= seq![name]);
    let at = alive(c, line);
    crate::caps::law_answer_ends_the_wait(c.caps, name, other);
    crate::caps::law_answer_ends_the_wait(c.caps, name, name);
    let after = c.receiving(line);
    assert(c.caps.acking(token).pending == c.caps.answered(name).pending);
    assert(after.caps.pending == c.caps.answered(name).pending);
    assert(after.events.take(c.events.len() as int) =~= c.events);
}

/// A capability that the server refuses is no longer waited for and not held for it; one that it
/// withdraws is neither held nor offered any more.
pub proof fn law_refused_and_withdrawn(
    c: ClientView,
    line: LineView,
    name: Seq<char>,
    other: Seq<char>,
)
    requires
        line.command == "CAP"@,
        line.params.len() == 3,
        line.params[1] == "NAK"@ || line.params[1] == "DEL"@,
        words(line.params[2]) == seq![name],
        !name.contains('='),
        other != name,
    ensures
        ({
            let after = c.receiving(line);
            &&& line.params[1] == "NAK"@ ==> {
                &&& !after.caps.pending.contains(name)
                &&& after.caps.pending.contains(other) == c.caps.pending.contains(other)
                &&& after.caps.acknowledged == c.caps.acknowledged
                &&& after.caps.available == c.caps.available
            }
            &&& line.params[1] == "DEL"@ ==> {
                &&& !after.caps.acknowledged.contains_key(name)
                &&& !after.caps.available.contains_key(name)
                &&& after.caps.acknowledged.contains_key(other)
                    == c.caps.acknowledged.contains_key(other)
                &&& after.caps.available.contains_key(other) == c.caps.available.contains_key(other)
                &&& after.outbox == c.outbox && after.events == c.events
            }
        }),
{
    lemma_cap_words();
    lemma_short_words(c, line);
    reveal(ClientView::on_cap);
    reveal(ClientView::settling);
    lemma_reads_as(name, name, None);
    assert(seq![name].drop_last() =~= Seq::empty());
    reveal_with_fuel(crate::caps::CapsView::rejecting, 2);
    reveal_with_fuel(crate::caps::CapsView::withdrawing, 2);
    crate::caps::law_answer_ends_the_wait(c.caps, name, other);
    crate::caps::law_answer_ends_the_wait(c.caps, name, name);
    assert(c.caps.rejecting(seq![name]) == c.caps.answered(name));
}

/// Once the last answer is in we authenticate where we can, by the name of the mechanism that the
/// credentials are for, and end the negotiation where we cannot. Where the server offers no
/// mechanism of ours the host is told.
pub proof fn law_last_answer_settles(c: ClientView, line: LineView, name: Seq<char>)
    requires
        line.command == "CAP"@,
        line.params.len() == 3,
        line.params[1] == "NAK"@,
        words(line.params[2]) == seq![name],
        !name.contains('='),
        c.phase == Phase::Negotiating,
        c.caps.pending == seq![name],
        c.sasl == SaslState::Idle,
    ensures
        ({
            let after = c.receiving(line);
            let ready = c.config.sasl is Some && c.caps.acknowledged.contains_key("sasl"@);
            let list = c.caps.acknowledged["sasl"@];
            let any = list is None || list->0.len() == 0;
            &&& !ready ==> {
                &&& writes(c, after, seq![saying("CAP"@, seq!["END"@])])
                &&& after.phase == Phase::Registering && after.events == c.events
            }
            &&& ready && any ==> {
                &&& after.sasl == SaslState::Offered && after.phase == Phase::Negotiating
                &&& c.config.sasl->0 is Plain ==> writes(
                    c,
                    after,
                    seq![saying("AUTHENTICATE"@, seq!["PLAIN"@])],
                )
                &&& c.config.sasl->0 is External ==> writes(
                    c,
                    after,
                    seq![saying("AUTHENTICATE"@, seq!["EXTERNAL"@])],
                )
                &&& c.config.sasl->0 is Scram ==> writes(
                    c,
                    after,
                    seq![saying("AUTHENTICATE"@, seq!["SCRAM-SHA-256"@])],
                )
            }
            &&& ready && !any && (forall|i: int|
                0 <= i < crate::text::fields(list->0, ',').len() ==> lower(
                    #[trigger] crate::text::fields(list->0, ',')[i],
                ) != lower(c.config.sasl->0.mechanism())) ==> {
                &&& writes(c, after, seq![saying("CAP"@, seq!["END"@])])
                &&& tells(
                    c,
                    after,
                    seq![EventView::SaslFailed { reason: SaslFailure::NoSharedMechanism }],
                )
                &&& after.phase == Phase::Registering && after.sasl == SaslState::Settled
            }
        }),
{
    lemma_cap_words();
    lemma_short_words(c, line);
    reveal(ClientView::on_cap);
    reveal(ClientView::settling);
    lemma_reads_as(name, name, None);
    assert(seq![name].drop_last() =~= Seq::empty());
    reveal_with_fuel(crate::caps::CapsView::rejecting, 2);
    let caps = c.caps.answered(name);
    assert(c.caps.rejecting(seq![name]) == caps);
    assert(caps.pending.len() == 0) by {
        if caps.pending.len() > 0 {
            let one = caps.pending[0];
            assert(caps.pending.contains(one));
            crate::caps::law_answer_ends_the_wait(c.caps, name, one);
        }
    }
    let after = c.receiving(line);
    if after.phase == Phase::Registering {
        lemma_writes_one(c, after, saying("CAP"@, seq!["END"@]));
        let event = EventView::SaslFailed { reason: SaslFailure::NoSharedMechanism };
        assert(c.events.push(event) =~= c.events + seq![event]);
    } else {
        lemma_writes_one(
            c,
            after,
            saying("AUTHENTICATE"@, seq![c.config.sasl->0.mechanism()]),
        );
    }
}

/// A capability that the server supports is in force from the line that says so, with its value,
/// and the host is told; one that it takes back no longer is.
pub proof fn law_support_is_in_force(
    c: ClientView,
    line: LineView,
    name: Seq<char>,
    value: Seq<char>,
    other: Seq<char>,
)
    requires
        line.command == "005"@,
        line.params.len() == 3,
        name.len() > 0 && name[0] != '-' && name.last() != '+' && !name.contains('='),
        !value.contains('\\'),
        other != name,
    ensures
        ({
            let after = c.receiving(line);
            &&& line.params[1] == name + seq!['='] + value ==> {
                &&& after.isupport.tokens.contains_key(name)
                &&& after.isupport.tokens[name] == Some(value)
                &&& tells(c, after, seq![EventView::Isupport { token: name, value: Some(value) }])
            }
            &&& line.params[1] == name ==> {
                &&& after.isupport.tokens.contains_key(name)
                &&& after.isupport.tokens[name] is None
                &&& tells(c, after, seq![EventView::Isupport { token: name, value: None }])
            }
            &&& line.params[1] == seq!['-'] + name ==> {
                &&& !after.isupport.tokens.contains_key(name)
                &&& tells(c, after, seq![EventView::Isupport { token: name, value: None }])
            }
            &&& line.params[1] == name + seq!['='] + value || line.params[1] == name
                || line.params[1] == seq!['-'] + name ==> {
                &&& after.isupport.tokens.contains_key(other) == c.isupport.tokens.contains_key(
                    other,
                )
                &&& c.isupport.tokens.contains_key(other) ==> after.isupport.tokens[other]
                    == c.isupport.tokens[other]
                &&& after.model == c.model && after.outbox == c.outbox
            }
        }),
{
    reveal_strlit("005");
    lemma_short_words(c, line);
    let token = line.params[1];
    assert(line.params.subrange(1, 2) =~= seq![token]);
    assert(seq![token].drop_last() =~= Seq::empty());
    reveal_with_fuel(ClientView::supporting_all, 2);
    let after = c.receiving(line);
    let read = crate::isupport::token_read(c.isupport.tokens, token);
    let event = EventView::Isupport { token: read.name, value: read.value };
    assert(after.events =~= c.events + seq![event]);
    if token == name + seq!['='] + value {
        lemma_reads_as(token, name, Some(value));
        assert(token[0] == name[0]);
        crate::isupport::law_plain_value_stands_for_itself(value);
    } else if token == name {
        lemma_reads_as(token, name, None);
    } else if token == seq!['-'] + name {
        assert(token.skip(1) =~= name);
        lemma_reads_as(name, name, None);
        assert(crate::text::before_first(name, '=') =~= name) by {
            crate::text::lemma_first_at_is(name, '=', name.len());
        }
    }
}

/// Asked to prove who we are with a name and a password, we send both, the one behind the other
/// with a zero before each; with a certificate we send nothing more. What is sent is the whole of
/// it.
pub proof fn law_credentials_are_sent(
    c: ClientView,
    line: LineView,
    username: Seq<char>,
    password: Seq<char>,
    payload: Seq<u8>,
)
    requires
        line.command == "AUTHENTICATE"@,
        line.params == seq!["+"@],
        c.sasl == SaslState::Offered,
        c.config.sasl == Some(CredentialsView::Plain { username, password }) && payload == seq![0u8]
            + vstd::utf8::encode_utf8(username) + seq![0u8] + vstd::utf8::encode_utf8(password)
            || c.config.sasl == Some(CredentialsView::External) && payload.len() == 0,
    ensures
        ({
            let after = c.receiving(line);
            let lines = response_lines(payload);
            &&& after.sasl == SaslState::Responded
            &&& after.events == c.events && after.phase == c.phase
            &&& after.outbox.len() == c.outbox.len() + lines.len()
            &&& forall|i: int|
                0 <= i < lines.len() ==> #[trigger] after.outbox[c.outbox.len() + i] == bytes_of(
                    saying("AUTHENTICATE"@, seq![lines[i]]),
                )
        }),
{
    reveal(ClientView::receiving);
    reveal(ClientView::handling);
    reveal(ClientView::on_rest);
    reveal(ClientView::on_authenticate);
    lemma_words();
    reveal_strlit("AUTHENTICATE");
    assert(lower(line.command).len() == 12);
    assert(upper(line.command).len() == 12);
    assert(payload =~= c.config.sasl->0.response());
    let lines = response_lines(payload).map_values(crate::state::authenticate());
    let after = c.receiving(line);
    lemma_writes(c, after, lines);
    assert forall|i: int| 0 <= i < lines.len() implies #[trigger] after.outbox[c.outbox.len() + i]
        == bytes_of(saying("AUTHENTICATE"@, seq![response_lines(payload)[i]])) by {
        assert(lines[i] == saying("AUTHENTICATE"@, seq![response_lines(payload)[i]]));
    }
}

/// A response is written in full lines of four hundred characters and a shorter last one, which
/// together are the response in base64; an empty one is a plus sign.
pub proof fn law_response_is_whole(payload: Seq<u8>, encoded: Seq<char>, i: int)
    requires
        encoded == crate::crypto::base64_of(payload),
        0 <= i < response_lines(payload).len(),
    ensures
        payload.len() == 0 ==> response_lines(payload) == seq!["+"@],
        payload.len() > 0 && 400 * i + 400 <= encoded.len() ==> response_lines(payload)[i]
            == encoded.subrange(400 * i, 400 * i + 400),
        payload.len() > 0 && 400 * i < encoded.len() < 400 * i + 400 ==> response_lines(payload)[i]
            == encoded.subrange(400 * i, encoded.len() as int),
        payload.len() > 0 && 400 * i == encoded.len() ==> response_lines(payload)[i] == "+"@,
        payload.len() > 0 ==> 400 * i <= encoded.len(),
        payload.len() > 0 ==> response_lines(payload).len() == encoded.len() / 400 + 1,
{
    if payload.len() > 0 {
        lemma_cut_every(encoded, i);
    }
}

proof fn lemma_cut_every(text: Seq<char>, i: int)
    ensures
        ({
            let pieces = crate::sasl::cut_every(text, 400);
            &&& text.len() % 400 == 0 ==> pieces.len() == text.len() / 400
            &&& text.len() % 400 != 0 ==> pieces.len() == text.len() / 400 + 1
            &&& 0 <= i < pieces.len() && 400 * i + 400 <= text.len() ==> pieces[i] == text.subrange(
                400 * i,
                400 * i + 400,
            )
            &&& 0 <= i < pieces.len() && text.len() < 400 * i + 400 ==> pieces[i] == text.subrange(
                400 * i,
                text.len() as int,
            )
        }),
    decreases text.len(),
{
    if text.len() > 400 {
        let rest = text.skip(400);
        lemma_cut_every(rest, i - 1);
        if i == 0 {
            assert(text.take(400) =~= text.subrange(0, 400));
        } else if 0 < i < crate::sasl::cut_every(text, 400).len() {
            if 400 * i + 400 <= text.len() {
                assert(rest.subrange(400 * (i - 1), 400 * (i - 1) + 400) =~= text.subrange(
                    400 * i,
                    400 * i + 400,
                ));
            } else {
                assert(rest.subrange(400 * (i - 1), rest.len() as int) =~= text.subrange(
                    400 * i,
                    text.len() as int,
                ));
            }
        }
    } else {
        assert(text.subrange(0, text.len() as int) =~= text);
    }
}

/// A connection that is lost is given up in all that was agreed on it, and the next attempt is told
/// of and waited for: twice as long as the last time, up to the longest wait, until there were as
/// many attempts as there may be.
pub proof fn law_lost_connection_is_retried(c: ClientView)
    requires
        c.backoff.base_ms <= c.backoff.cap_ms,
    ensures
        ({
            let after = c.disconnecting();
            let doubled = c.backoff.base_ms * vstd::arithmetic::power2::pow2(
                c.backoff.attempts as nat,
            );
            let wait = if doubled < c.backoff.cap_ms {
                doubled
            } else {
                c.backoff.cap_ms as int
            };
            &&& after.phase == Phase::Disconnected
            &&& after.caps.available.dom().len() == 0 && after.caps.acknowledged.dom().len() == 0
            &&& after.caps.pending.len() == 0
            &&& after.sasl == SaslState::Idle
            &&& after.batches.by_reference.dom().len() == 0
            &&& after.monitor.online.len() == 0
            &&& !after.timers.contains_key(DeadlineView::PingKeepalive)
            &&& !after.timers.contains_key(DeadlineView::DeadLink)
            &&& after.outbox == c.outbox
            &&& c.backoff.attempts < c.backoff.max_attempts ==> {
                &&& after.events.len() == c.events.len() + 1
                &&& after.events.last() is Reconnect
                &&& after.events.last()->after_ms == wait
                &&& after.backoff.attempts == c.backoff.attempts + 1
                &&& after.timers.contains_key(DeadlineView::Reconnect)
                &&& c.monotonic_ms + wait <= u64::MAX ==> after.timers[DeadlineView::Reconnect]
                    == c.monotonic_ms + wait
            }
            &&& c.backoff.attempts >= c.backoff.max_attempts ==> tells(
                c,
                after,
                seq![EventView::ReconnectGaveUp],
            )
        }),
{
    let after = c.disconnecting();
    vstd::arithmetic::power2::lemma_pow2_pos(c.backoff.attempts as nat);
    let doubled = c.backoff.base_ms * vstd::arithmetic::power2::pow2(c.backoff.attempts as nat);
    assert(doubled >= 0) by (nonlinear_arith)
        requires
            doubled == c.backoff.base_ms * vstd::arithmetic::power2::pow2(
                c.backoff.attempts as nat,
            ),
            vstd::arithmetic::power2::pow2(c.backoff.attempts as nat) > 0,
            c.backoff.base_ms >= 0,
    ;
    assert(after.caps.available.dom() =~= Set::empty());
    assert(after.caps.acknowledged.dom() =~= Set::empty());
    assert(after.batches.by_reference.dom() =~= Set::empty());
    if c.backoff.attempts >= c.backoff.max_attempts {
        assert(after.events =~= c.events + seq![EventView::ReconnectGaveUp]);
    }
}

/// A connection that succeeds starts the count of attempts anew, waits for no other one, and has
/// half a minute to be heard from.
pub proof fn law_connection_resets_the_count(c: ClientView)
    ensures
        c.connecting().backoff.attempts == 0,
        c.connecting().backoff.base_ms == c.backoff.base_ms,
        c.connecting().backoff.cap_ms == c.backoff.cap_ms,
        c.connecting().backoff.max_attempts == c.backoff.max_attempts,
        !c.connecting().timers.contains_key(DeadlineView::Reconnect),
        !c.connecting().timers.contains_key(DeadlineView::DeadLink),
        c.connecting().timers.contains_key(DeadlineView::PingKeepalive),
        c.monotonic_ms + 30_000 <= u64::MAX
            ==> c.connecting().timers[DeadlineView::PingKeepalive] == c.monotonic_ms + 30_000,
{
}

/// Every deadline that has passed is acted on, once: the link is pinged with our nick as the token
/// and has ten seconds to answer, a link that did not answer is called dead, and a reconnect that
/// is due is called for. Each is then no longer armed.
pub proof fn law_deadlines_are_acted_on(c: ClientView, now: crate::timer::Now, d: DeadlineView)
    requires
        c.timers.dom().finite(),
        c.timers.contains_key(d),
    ensures
        ({
            let after = c.ticking(now);
            let due = c.timers[d] <= now.monotonic_ms;
            &&& !due ==> after.timers.contains_key(d)
            &&& due && d == DeadlineView::PingKeepalive ==> {
                &&& writes(c, after, seq![saying("PING"@, seq![c.nick])])
                &&& !after.timers.contains_key(d)
                &&& after.timers.contains_key(DeadlineView::DeadLink)
                &&& now.monotonic_ms + 10_000 <= u64::MAX ==> after.timers[DeadlineView::DeadLink]
                    == now.monotonic_ms + 10_000
            }
            &&& !due && d == DeadlineView::PingKeepalive ==> after.outbox == c.outbox
            &&& due && d == DeadlineView::DeadLink ==> told_since(c.events.len(), after, EventView::LinkDead)
            &&& due && d == DeadlineView::Reconnect ==> {
                &&& told_since(c.events.len(), after, EventView::Reconnect { after_ms: 0 })
                &&& !after.timers.contains_key(d)
            }
            &&& after.monotonic_ms == now.monotonic_ms
            &&& after.latest_ms >= now.unix_ms && after.latest_ms >= c.latest_ms
            &&& after.latest_ms == now.unix_ms || after.latest_ms == c.latest_ms
        }),
{
    crate::state::lemma_tick(c, now);
    let due = crate::timer::expired(c.timers, now.monotonic_ms);
    crate::timer::lemma_expired_once(c.timers, now.monotonic_ms);
    let started = ClientView {
        monotonic_ms: now.monotonic_ms,
        latest_ms: if c.latest_ms < now.unix_ms {
            now.unix_ms
        } else {
            c.latest_ms
        },
        timers: crate::timer::still_armed(c.timers, now.monotonic_ms),
        ..c
    };
    lemma_deadline_told(started, due, d);
    let after = c.ticking(now);
    let passed = started.past_deadlines(due);
    lemma_grows(c, passed, after);
    if c.timers[d] <= now.monotonic_ms {
        assert(due.contains(d));
        if d == DeadlineView::PingKeepalive {
            lemma_writes_one(c, after, saying("PING"@, seq![c.nick]));
        }
    }
}

/// True when this was told since there were so many events.
pub open spec fn told_since(before: nat, after: ClientView, event: EventView) -> bool {
    exists|i: int|
        before <= i < after.events.len() && #[trigger] after.events[i] == event
}

proof fn lemma_grows(c: ClientView, between: ClientView, after: ClientView)
    requires
        between.events.len() >= c.events.len(),
        between.events.len() <= after.events.len(),
        forall|i: int|
            0 <= i < between.events.len() ==> between.events[i] == #[trigger] after.events[i],
    ensures
        forall|e: EventView| #[trigger]
            told_since(c.events.len(), between, e) ==> told_since(c.events.len(), after, e),
{
    assert forall|e: EventView| #[trigger] told_since(c.events.len(), between, e) implies told_since(
        c.events.len(),
        after,
        e,
    ) by {
        let i = choose|i: int|
            c.events.len() <= i < between.events.len() && #[trigger] between.events[i] == e;
        assert(after.events[i] == e);
    }
}

proof fn lemma_deadline_told(c: ClientView, deadlines: Seq<DeadlineView>, d: DeadlineView)
    ensures
        c.past_deadlines(deadlines).events.len() >= c.events.len(),
        c.past_deadlines(deadlines).monotonic_ms == c.monotonic_ms,
        c.past_deadlines(deadlines).latest_ms == c.latest_ms,
        deadlines.contains(d) && d == DeadlineView::DeadLink ==> told_since(
            c.events.len(),
            c.past_deadlines(deadlines),
            EventView::LinkDead,
        ),
        deadlines.contains(d) && d == DeadlineView::Reconnect ==> told_since(
            c.events.len(),
            c.past_deadlines(deadlines),
            EventView::Reconnect { after_ms: 0 },
        ),
    decreases deadlines.len(),
{
    if deadlines.len() > 0 {
        let rest = deadlines.drop_last();
        lemma_deadline_told(c, rest, d);
        let before = c.past_deadlines(rest);
        let after = c.past_deadlines(deadlines);
        lemma_grows(c, before, after);
        if deadlines.contains(d) {
            if deadlines.last() == d {
                assert(after.events.len() >= before.events.len());
                if d == DeadlineView::DeadLink {
                    assert(after.events[before.events.len() as int] == EventView::LinkDead);
                }
                if d == DeadlineView::Reconnect {
                    assert(after.events[before.events.len() as int] == (EventView::Reconnect {
                        after_ms: 0,
                    }));
                }
            } else {
                assert(rest[deadlines.index_of(d)] == d);
            }
        }
    }
}

/// What we asked and was never answered is given up on in its time, and the host is told which
/// command it was; what still has time is waited for further.
pub proof fn law_unanswered_is_given_up(c: ClientView, now: crate::timer::Now, label: Seq<char>)
    requires
        c.labels.pending.dom().finite(),
        c.labels.pending.contains_key(label),
    ensures
        ({
            let after = c.ticking(now);
            let asked = c.labels.pending[label];
            &&& asked.deadline_ms <= now.monotonic_ms ==> {
                &&& told_since(c.events.len(), after, EventView::CommandTimedOut { command: asked.data })
                &&& !after.labels.pending.contains_key(label)
            }
            &&& asked.deadline_ms > now.monotonic_ms ==> after.labels.pending.contains_key(label)
                && after.labels.pending[label] == asked
        }),
{
    let due = crate::timer::expired(c.timers, now.monotonic_ms);
    let started = ClientView {
        monotonic_ms: now.monotonic_ms,
        latest_ms: if c.latest_ms < now.unix_ms {
            now.unix_ms
        } else {
            c.latest_ms
        },
        timers: crate::timer::still_armed(c.timers, now.monotonic_ms),
        ..c
    };
    lemma_labels_wait(started, due);
    lemma_deadline_told(started, due, DeadlineView::DeadLink);
    let passed = started.past_deadlines(due);
    let after = c.ticking(now);
    let asked = c.labels.pending[label];
    if asked.deadline_ms <= now.monotonic_ms {
        let set = crate::label::overdue_labels(c.labels.pending, now.monotonic_ms);
        let one = crate::timer::Due { at: asked.deadline_ms, key: label };
        let dom = c.labels.pending.dom();
        let all = dom.map(
            |k: Seq<char>| crate::timer::Due { at: c.labels.pending[k].deadline_ms, key: k },
        );
        dom.lemma_map_finite(
            |k: Seq<char>| crate::timer::Due { at: c.labels.pending[k].deadline_ms, key: k },
        );
        assert forall|d: crate::timer::Due<Seq<char>>| set.contains(d) implies all.contains(d) by {
            assert(dom.contains(d.key));
            assert(d == crate::timer::Due { at: c.labels.pending[d.key].deadline_ms, key: d.key });
        }
        vstd::set_lib::lemma_set_subset_finite(all, set);
        crate::sorted::lemma_has_order(set);
        assert(set.contains(one));
        let order = crate::sorted::in_order(set);
        assert(order.contains(one));
        let i = order.index_of(one);
        let late = crate::label::overdue(c.labels.pending, now.monotonic_ms);
        assert(late[i] == (label, asked));
        let told = late.map_values(crate::state::timed_out());
        assert(after.events == passed.events + told);
        assert(after.events[passed.events.len() + i] == told[i]);
    }
}

proof fn lemma_labels_wait(c: ClientView, deadlines: Seq<DeadlineView>)
    ensures
        c.past_deadlines(deadlines).labels == c.labels,
    decreases deadlines.len(),
{
    if deadlines.len() > 0 {
        lemma_labels_wait(c, deadlines.drop_last());
    }
}

/// A whole line that comes in is handled as it parses; one that does not parse is counted and
/// changes nothing else. What came before the end of the line is kept until it comes.
pub proof fn law_bytes_are_lines(c: ClientView, body: Seq<u8>)
    requires
        !body.contains(10u8),
        c.partial.len() == 0,
        !c.discarding,
    ensures
        ({
            let read = crate::wire::parsed(crate::crypto::lossy(body + seq![10u8]));
            let after = c.feeding(body + seq![10u8]);
            &&& read is Some ==> after == c.receiving(read->0)
            &&& read is None ==> after.events == c.events && after.outbox == c.outbox && after.model
                == c.model
            &&& read is None && c.dropped_lines < u64::MAX ==> after.dropped_lines
                == c.dropped_lines + 1
            &&& body.len() <= 8703 ==> c.feeding(body) == (ClientView { partial: body, ..c })
        }),
{
    let bytes = body + seq![10u8];
    assert(c.partial =~= Seq::<u8>::empty());
    assert(Seq::<u8>::empty() + bytes =~= bytes);
    assert(Seq::<u8>::empty() + body =~= body);
    lemma_ends_at(body, body.len());
    assert forall|i: int| 0 <= i < body.len() implies bytes[i] != 10 by {
        assert(bytes[i] == body[i]);
        assert(body.contains(body[i]));
    }
    lemma_ends_at(bytes, body.len());
    let at = ClientView { partial: Seq::empty(), ..c };
    assert(at == c);
    assert(bytes.take(body.len() as int + 1) =~= bytes);
    let rest = bytes.skip(body.len() as int + 1);
    assert(rest =~= Seq::<u8>::empty());
    let taken = c.taking(bytes);
    assert(taken.reading(rest) == (ClientView { partial: rest, ..taken }));
    crate::state::lemma_taking_keeps_partial(c, bytes);
    assert(taken.partial =~= rest);
    assert(taken.reading(rest) == taken);
}

proof fn lemma_ends_at(bytes: Seq<u8>, n: nat)
    requires
        n <= bytes.len(),
        forall|i: int| 0 <= i < n ==> bytes[i] != 10,
        n < bytes.len() ==> bytes[n as int] == 10,
    ensures
        crate::state::line_end(bytes) == n,
    decreases n,
{
    if n > 0 {
        let rest = bytes.skip(1);
        assert forall|i: int| 0 <= i < n - 1 implies rest[i] != 10 by {
            assert(rest[i] == bytes[i + 1]);
        }
        lemma_ends_at(rest, (n - 1) as nat);
    }
}

/// Once we are registered again, what we asked for before is asked for again: every channel is
/// joined with its key, followed where the server keeps history by a request for what came after
/// the last message that we have of it, and the metadata that we want to be told of is named.
#[verifier::spinoff_prover]
#[verifier::rlimit(40)]
pub proof fn law_what_we_wanted_is_asked_again(
    c: ClientView,
    line: LineView,
    channel: Seq<char>,
    last: crate::model::MessageKey,
    msgid: Seq<char>,
)
    requires
        line.command == "001"@,
        line.params.len() > 0,
        c.model.channels.dom().finite(),
        c.model.channels.contains_key(channel),
        c.model.channels[channel].log.messages.dom().finite(),
        c.model.channels[channel].log.messages.contains_key(last),
        forall|k: crate::model::MessageKey| #[trigger]
            c.model.channels[channel].log.messages.contains_key(k) && k != last ==> k.time_ms
                < last.time_ms || k.time_ms == last.time_ms && k.seq < last.seq,
        c.model.channels[channel].log.messages[last].msgid == Some(msgid),
        c.caps.acknowledged.contains_key("draft/chathistory"@),
    ensures
        ({
            let after = c.receiving(line);
            let name = c.model.channels[channel].name;
            let at = c.isupport.fold(name);
            let join = if c.channel_keys.contains_key(at) {
                saying("JOIN"@, seq![name, c.channel_keys[at]])
            } else {
                saying("JOIN"@, seq![name])
            };
            let history = saying(
                "CHATHISTORY"@,
                seq!["AFTER"@, name, "msgid="@ + msgid, "100"@],
            );
            exists|i: int|
                {
                    &&& c.outbox.len() <= i < after.outbox.len() - 1
                    &&& #[trigger] after.outbox[i] == bytes_of(join)
                    &&& after.outbox[i + 1] == bytes_of(history)
                }
        }),
{
    let up = welcomed(c, line);
    let after = c.receiving(line);
    let lines = up.resumption();
    lemma_resumes(c, line);
    lemma_rejoin_lines(up, channel, last, msgid);
    lemma_rejoin_in_resumption(up, channel);
    let two = up.rejoin(channel);
    let p = choose|p: int| #[trigger] part_at(lines, two, p);
    assert(lines[p] == lines.subrange(p, p + two.len())[0]);
    assert(lines[p + 1] == lines.subrange(p, p + two.len())[1]);
    let k = c.outbox.len() + p;
    assert(after.outbox[k] == bytes_of(two[0]));
    assert(after.outbox[c.outbox.len() + (p + 1)] == bytes_of(two[1]));
}

proof fn lemma_rejoin_in_resumption(c: ClientView, channel: Seq<char>)
    requires
        c.model.channels.dom().finite(),
        c.model.channels.contains_key(channel),
    ensures
        exists|p: int| #[trigger] part_at(c.resumption(), c.rejoin(channel), p),
{
    let channels = crate::sorted::in_order(c.model.channels.dom());
    crate::sorted::lemma_has_order(c.model.channels.dom());
    assert(c.model.channels.dom().contains(channel));
    assert(channels.contains(channel));
    let i = channels.index_of(channel);
    lemma_rejoin_place(c, channels, i);
    let rejoins = c.rejoins(channels);
    let lines = c.resumption();
    let two = c.rejoin(channel);
    let p = choose|p: int| #[trigger] part_at(rejoins, two, p);
    let base = lines.len() - rejoins.len();
    assert(lines.subrange(base + p, base + p + two.len()) =~= rejoins.subrange(p, p + two.len()));
    assert(part_at(lines, two, base + p));
}

proof fn lemma_rejoin_lines(
    c: ClientView,
    channel: Seq<char>,
    last: crate::model::MessageKey,
    msgid: Seq<char>,
)
    requires
        c.model.channels[channel].log.messages.dom().finite(),
        c.model.channels[channel].log.messages.contains_key(last),
        forall|k: crate::model::MessageKey| #[trigger]
            c.model.channels[channel].log.messages.contains_key(k) && k != last ==> k.time_ms
                < last.time_ms || k.time_ms == last.time_ms && k.seq < last.seq,
        c.model.channels[channel].log.messages[last].msgid == Some(msgid),
        c.caps.acknowledged.contains_key("draft/chathistory"@),
    ensures
        ({
            let name = c.model.channels[channel].name;
            let at = c.isupport.fold(name);
            let join = if c.channel_keys.contains_key(at) {
                saying("JOIN"@, seq![name, c.channel_keys[at]])
            } else {
                saying("JOIN"@, seq![name])
            };
            c.rejoin(channel) == seq![
                join,
                saying("CHATHISTORY"@, seq!["AFTER"@, name, "msgid="@ + msgid, "100"@]),
            ]
        }),
{
    lemma_last_of(c.model.channels[channel].log, last);
    let name = c.model.channels[channel].name;
    let folded = c.isupport.fold(name);
    assert(seq![name].push(c.channel_keys[folded]) =~= seq![name, c.channel_keys[folded]]);
}

/// The connection as it is once the server welcomed us, and before anything is asked for again.
spec fn welcomed(c: ClientView, line: LineView) -> ClientView {
    let at = alive(c, line);
    let nick = line.params[0];
    ClientView {
        phase: Phase::Registered,
        nick,
        model: ModelView { me: crate::model::MeView { nick, ..at.model.me }, ..at.model },
        ..at
    }.telling(EventView::Registered { nick })
}

proof fn lemma_resumes(c: ClientView, line: LineView)
    requires
        line.command == "001"@,
        line.params.len() > 0,
    ensures
        writes(c, c.receiving(line), welcomed(c, line).resumption()),
{
    reveal_strlit("001");
    lemma_short_words(c, line);
    reveal(ClientView::registering);
    let up = welcomed(c, line);
    let lines = up.resumption();
    assert(c.receiving(line) == up.sending_all(lines));
    lemma_writes(c, c.receiving(line), lines);
}

/// The metadata that we want to be told of is named again too.
pub proof fn law_metadata_is_asked_again(c: ClientView, line: LineView)
    requires
        line.command == "001"@,
        line.params.len() > 0,
        c.metadata_subscriptions.len() > 0,
    ensures
        ({
            let after = c.receiving(line);
            exists|i: int|
                c.outbox.len() <= i < after.outbox.len() && #[trigger] after.outbox[i] == bytes_of(
                    saying("METADATA"@, seq!["*"@, "SUB"@] + c.metadata_subscriptions),
                )
        }),
{
    let up = welcomed(c, line);
    let after = c.receiving(line);
    let lines = up.resumption();
    lemma_resumes(c, line);
    let rejoins = up.rejoins(crate::sorted::in_order(c.model.channels.dom()));
    let base = lines.len() - rejoins.len();
    let sub = saying("METADATA"@, seq!["*"@, "SUB"@] + c.metadata_subscriptions);
    assert(lines[base - 1] == sub);
    assert(after.outbox[c.outbox.len() + (base - 1)] == bytes_of(sub));
}

/// Whom we watch is named again too, in groups that the server accepts, and everyone is: whoever is
/// in place `i` among them stands in group `i / limit`.
pub proof fn law_watched_are_asked_again(c: ClientView, line: LineView, who: Seq<char>)
    requires
        line.command == "001"@,
        line.params.len() > 0,
        c.monitor.watching.finite(),
        c.monitor.watching.contains(who),
    ensures
        ({
            let after = c.receiving(line);
            exists|i: int, group: Seq<Seq<char>>|
                {
                    &&& c.outbox.len() <= i < after.outbox.len()
                    &&& #[trigger] after.outbox[i] == bytes_of(
                        saying("MONITOR"@, seq!["+"@, crate::text::joined(group, ","@)]),
                    )
                    &&& #[trigger] group.contains(who)
                    &&& group.len() <= c.monitor_limit() || group.len() <= 1
                }
        }),
{
    let up = welcomed(c, line);
    let after = c.receiving(line);
    let lines = up.resumption();
    lemma_resumes(c, line);
    let watched = crate::sorted::in_order(c.monitor.watching);
    crate::sorted::lemma_has_order(c.monitor.watching);
    assert(watched.contains(who));
    let i = watched.index_of(who);
    let limit = crate::monitor::per_request(c.monitor_limit());
    crate::command_laws::lemma_group_of(watched, limit, i);
    let g = i / limit as int;
    crate::monitor::law_requests_stay_inside_the_limit(watched, limit, g);
    let group = crate::monitor::chunked(watched, limit)[g];
    assert(group[i - g * limit] == who);
    assert(group.contains(who));
    let asked = crate::monitor::requests(watched, c.monitor_limit());
    let request = saying("MONITOR"@, seq!["+"@, crate::text::joined(group, ","@)]);
    assert(asked.map_values(crate::state::monitor_request("+"@))[g] == request);
    assert(lines[g] == request);
    let k = c.outbox.len() + g;
    assert(after.outbox[k] == bytes_of(request));
}

proof fn lemma_last_of(log: crate::model::LogView, last: crate::model::MessageKey)
    requires
        log.messages.dom().finite(),
        log.messages.contains_key(last),
        forall|k: crate::model::MessageKey| #[trigger]
            log.messages.contains_key(k) && k != last ==> k.time_ms < last.time_ms || k.time_ms
                == last.time_ms && k.seq < last.seq,
    ensures
        log.in_time().len() > 0,
        log.in_time().last() == log.messages[last],
{
    crate::sorted::lemma_has_order(log.messages.dom());
    let order = crate::sorted::in_order(log.messages.dom());
    assert(log.messages.dom().contains(last));
    assert(order.contains(last));
    let i = order.index_of(last);
    let n = order.len() - 1;
    if i < n {
        assert(crate::sorted::Ordered::precedes(order[i], order[n]));
        assert(order.contains(order[n]));
        assert(log.messages.contains_key(order[n]));
        <crate::model::MessageKey as crate::sorted::Ordered>::irreflexive(last);
        assert(order[n] != last);
        <crate::model::MessageKey as crate::sorted::Ordered>::transitive(last, order[n], last);
    }
}

/// True when these lines stand together at this place among all of them.
spec fn part_at(all: Seq<LineView>, part: Seq<LineView>, p: int) -> bool {
    0 <= p && p + part.len() <= all.len() && all.subrange(p, p + part.len()) == part
}

proof fn lemma_rejoin_place(c: ClientView, channels: Seq<Seq<char>>, i: int)
    requires
        0 <= i < channels.len(),
    ensures
        exists|p: int| #[trigger] part_at(c.rejoins(channels), c.rejoin(channels[i]), p),
    decreases channels.len(),
{
    let before = c.rejoins(channels.drop_last());
    let last = c.rejoin(channels.last());
    let all = c.rejoins(channels);
    assert(all == before + last);
    let two = c.rejoin(channels[i]);
    if i == channels.len() - 1 {
        let p = before.len() as int;
        assert(all.subrange(p, p + two.len()) =~= two);
        assert(part_at(all, two, p));
    } else {
        lemma_rejoin_place(c, channels.drop_last(), i);
        assert(channels.drop_last()[i] == channels[i]);
        let p = choose|p: int| #[trigger] part_at(before, two, p);
        assert(all.subrange(p, p + two.len()) =~= before.subrange(p, p + two.len()));
        assert(part_at(all, two, p));
    }
}

/// A challenge to prove the password without sending it is answered with the proof, and the server
/// must then prove itself: one that cannot is not the server that it claims to be, and the host is
/// told. A challenge that makes no sense ends the exchange as refused.
pub proof fn law_proofs_are_exchanged(
    c: ClientView,
    line: LineView,
    s: crate::scram::ScramView,
    payload: Seq<char>,
    bytes: Seq<u8>,
)
    requires
        line.command == "AUTHENTICATE"@,
        line.params == seq![payload],
        payload.len() > 1,
        crate::crypto::base64_bytes(payload) == Some(bytes),
        c.scram == Some(s),
    ensures
        ({
            let after = c.receiving(line);
            &&& c.sasl == SaslState::ScramChallenged && s.client_final(bytes) is Ok ==> {
                let lines = response_lines(s.client_final(bytes)->Ok_0);
                &&& after.sasl == SaslState::ScramProved
                &&& after.scram == Some(s.after(bytes))
                &&& after.events == c.events
                &&& after.outbox.len() == c.outbox.len() + lines.len()
                &&& forall|i: int|
                    0 <= i < lines.len() ==> #[trigger] after.outbox[c.outbox.len() + i]
                        == bytes_of(saying("AUTHENTICATE"@, seq![lines[i]]))
            }
            &&& c.sasl == SaslState::ScramChallenged && s.client_final(bytes) is Err ==> {
                &&& after.sasl == SaslState::Settled
                &&& told_since(
                    c.events.len(),
                    after,
                    EventView::SaslFailed { reason: SaslFailure::Rejected },
                )
            }
            &&& c.sasl == SaslState::ScramProved && s.verified(bytes) is Ok ==> {
                &&& after.sasl == SaslState::Responded
                &&& after.events == c.events
                &&& writes(c, after, seq![saying("AUTHENTICATE"@, seq!["+"@])])
            }
            &&& c.sasl == SaslState::ScramProved && s.verified(bytes) is Err ==> {
                &&& after.sasl == SaslState::Settled
                &&& told_since(
                    c.events.len(),
                    after,
                    EventView::SaslFailed { reason: SaslFailure::ServerNotVerified },
                )
            }
        }),
{
    lemma_authenticate(c, line);
    reveal(ClientView::on_authenticate);
    reveal(ClientView::finishing_sasl);
    reveal(ClientView::settling);
    reveal_strlit("+");
    assert("+"@.len() == 1);
    let after = c.receiving(line);
    let at = alive(c, line);
    if c.sasl == SaslState::ScramChallenged {
        if s.client_final(bytes) is Ok {
            let lines = response_lines(s.client_final(bytes)->Ok_0);
            let said = lines.map_values(crate::state::authenticate());
            lemma_writes(c, after, said);
            assert forall|i: int|
                0 <= i < lines.len() implies #[trigger] after.outbox[c.outbox.len() + i]
                == bytes_of(saying("AUTHENTICATE"@, seq![lines[i]])) by {
                assert(said[i] == saying("AUTHENTICATE"@, seq![lines[i]]));
            }
        } else {
            assert(after.events[c.events.len() as int] == (EventView::SaslFailed {
                reason: SaslFailure::Rejected,
            }));
        }
    }
    if c.sasl == SaslState::ScramProved {
        if s.verified(bytes) is Ok {
            lemma_writes_one(c, after, saying("AUTHENTICATE"@, seq!["+"@]));
        } else {
            assert(after.events[c.events.len() as int] == (EventView::SaslFailed {
                reason: SaslFailure::ServerNotVerified,
            }));
        }
    }
}

proof fn lemma_authenticate(c: ClientView, line: LineView)
    requires
        line.command == "AUTHENTICATE"@,
    ensures
        c.receiving(line) == alive(c, line).on_authenticate(line),
{
    reveal(ClientView::receiving);
    reveal(ClientView::handling);
    reveal(ClientView::on_rest);
    lemma_words();
    reveal_strlit("AUTHENTICATE");
    assert(lower(line.command).len() == 12);
    assert(upper(line.command).len() == 12);
}

/// Invited to prove the password without sending it, we open the exchange: by no other account's
/// leave, and with our first message.
pub proof fn law_exchange_opens(
    c: ClientView,
    line: LineView,
    username: Seq<char>,
    password: Seq<char>,
    nonce: Seq<char>,
)
    requires
        line.command == "AUTHENTICATE"@,
        line.params == seq!["+"@],
        c.sasl == SaslState::Offered,
        c.config.sasl == Some(CredentialsView::Scram { username, password, nonce }),
    ensures
        ({
            let after = c.receiving(line);
            let s = crate::scram::ScramView::start(username, password, nonce);
            let lines = response_lines(
                vstd::utf8::encode_utf8(seq!['n', ',', ','] + s.client_first_bare),
            );
            &&& after.sasl == SaslState::ScramChallenged
            &&& after.scram == Some(s)
            &&& after.events == c.events
            &&& after.outbox.len() == c.outbox.len() + lines.len()
            &&& forall|i: int|
                0 <= i < lines.len() ==> #[trigger] after.outbox[c.outbox.len() + i] == bytes_of(
                    saying("AUTHENTICATE"@, seq![lines[i]]),
                )
        }),
{
    lemma_authenticate(c, line);
    reveal(ClientView::on_authenticate);
    reveal_strlit("n,,");
    assert("n,,"@ =~= seq!['n', ',', ',']);
    let s = crate::scram::ScramView::start(username, password, nonce);
    let lines = response_lines(vstd::utf8::encode_utf8(seq!['n', ',', ','] + s.client_first_bare));
    let said = lines.map_values(crate::state::authenticate());
    let after = c.receiving(line);
    lemma_writes(c, after, said);
    assert forall|i: int| 0 <= i < lines.len() implies #[trigger] after.outbox[c.outbox.len() + i]
        == bytes_of(saying("AUTHENTICATE"@, seq![lines[i]])) by {
        assert(said[i] == saying("AUTHENTICATE"@, seq![lines[i]]));
    }
}

/// A value that comes in several parts grows by each of them: a token that ends in a plus sign adds
/// to what is held.
pub proof fn law_support_grows(
    c: ClientView,
    line: LineView,
    name: Seq<char>,
    held: Seq<char>,
    more: Seq<char>,
)
    requires
        line.command == "005"@,
        line.params.len() == 3,
        name.len() > 0 && name[0] != '-' && !name.contains('='),
        !more.contains('\\'),
        line.params[1] == name + seq!['+', '='] + more,
        c.isupport.tokens.contains_key(name),
        c.isupport.tokens[name] == Some(held),
    ensures
        c.receiving(line).isupport.tokens.contains_key(name),
        c.receiving(line).isupport.tokens[name] == Some(held + more),
        tells(
            c,
            c.receiving(line),
            seq![EventView::Isupport { token: name, value: Some(held + more) }],
        ),
{
    reveal_strlit("005");
    lemma_short_words(c, line);
    let token = line.params[1];
    let longer = name + seq!['+'];
    assert(line.params.subrange(1, 2) =~= seq![token]);
    assert(seq![token].drop_last() =~= Seq::empty());
    reveal_with_fuel(ClientView::supporting_all, 2);
    assert(!longer.contains('=')) by {
        if longer.contains('=') {
            let k = longer.index_of('=');
            assert(k < name.len() && name[k] == '=');
        }
    }
    assert(token =~= longer + seq!['='] + more);
    lemma_reads_as(token, longer, Some(more));
    assert(token[0] == name[0]);
    assert(longer.drop_last() =~= name);
    crate::isupport::law_plain_value_stands_for_itself(more);
    assert(c.receiving(line).events =~= c.events + seq![
        EventView::Isupport { token: name, value: Some(held + more) },
    ]);
}

/// The signs of standing are those that the server lists, from the line that lists them; once it
/// takes them back they are the usual ones again.
pub proof fn law_signs_are_the_servers(
    c: ClientView,
    line: LineView,
    letters: Seq<char>,
    signs: Seq<char>,
    i: int,
)
    requires
        line.command == "005"@,
        line.params.len() == 3,
        letters.len() > 0 && letters.len() == signs.len(),
        !letters.contains(')') && !letters.contains('\\') && !signs.contains('\\'),
        0 <= i < letters.len(),
        forall|j: int, k: int| 0 <= j < k < letters.len() ==> letters[j] != letters[k],
        forall|j: int, k: int| 0 <= j < k < signs.len() ==> signs[j] != signs[k],
    ensures
        line.params[1] == "PREFIX"@ + seq!['=', '('] + letters + seq![')'] + signs ==> {
            let prefix = c.receiving(line).isupport.prefix;
            &&& crate::wire::prefix_granted(prefix, letters[i]) == Some(signs[i])
            &&& crate::wire::prefix_rank(prefix, signs[i]) == Some(i as nat)
        },
        line.params[1] == seq!['-'] + "PREFIX"@ ==> c.receiving(line).isupport.prefix == seq![
            ('o', '@'),
            ('v', '+'),
        ],
{
    reveal_strlit("005");
    reveal_strlit("PREFIX");
    let name = "PREFIX"@;
    lemma_short_words(c, line);
    let token = line.params[1];
    assert(line.params.subrange(1, 2) =~= seq![token]);
    assert(seq![token].drop_last() =~= Seq::empty());
    reveal_with_fuel(ClientView::supporting_all, 2);
    assert(name =~= seq!['P', 'R', 'E', 'F', 'I', 'X']);
    let value = seq!['('] + letters + seq![')'] + signs;
    if token == name + seq!['=', '('] + letters + seq![')'] + signs {
        assert(token =~= name + seq!['='] + value);
        lemma_reads_as(token, name, Some(value));
        assert(token[0] == 'P');
        assert(!value.contains('\\')) by {
            if value.contains('\\') {
                let k = value.index_of('\\');
                if 1 <= k <= letters.len() {
                    assert(letters[k - 1] == '\\');
                } else if k > letters.len() + 1 {
                    assert(signs[k - letters.len() - 2] == '\\');
                }
            }
        }
        crate::isupport::law_plain_value_stands_for_itself(value);
        crate::wire_laws::law_standing_letters(letters, signs, i);
    }
    if token == seq!['-'] + name {
        assert(token.skip(1) =~= name);
        crate::text::lemma_first_at_is(name, '=', name.len());
        assert(crate::text::before_first(name, '=') =~= name);
    }
}

/// A line that answers what we asked, by its label, ends the wait for it and for nothing else.
pub proof fn law_answer_ends_the_wait(
    c: ClientView,
    line: LineView,
    label: Seq<char>,
    other: Seq<char>,
)
    requires
        is_about_people(line),
        line.tag("label"@) == Some(label),
        other != label,
    ensures
        !c.receiving(line).labels.pending.contains_key(label),
        c.receiving(line).labels.pending.contains_key(other) == c.labels.pending.contains_key(other),
        c.labels.pending.contains_key(other) ==> c.receiving(line).labels.pending[other]
            == c.labels.pending[other],
{
    lemma_about_people(c, line);
    reveal(ClientView::folding);
}

/// What the library relies on where it is to be had is asked for where it is offered.
pub proof fn law_what_we_rely_on_is_wanted()
    ensures
        wanted().contains("message-tags"@),
        wanted().contains("server-time"@),
        wanted().contains("batch"@),
        wanted().contains("labeled-response"@),
        wanted().contains("echo-message"@),
        wanted().contains("account-tag"@),
        wanted().contains("away-notify"@),
        wanted().contains("extended-join"@),
        wanted().contains("multi-prefix"@),
        wanted().contains("draft/chathistory"@),
        wanted().contains("draft/read-marker"@),
        wanted().contains("draft/message-redaction"@),
        wanted().contains("draft/metadata-2"@),
        wanted().contains("standard-replies"@),
        wanted().contains("sasl"@),
        wanted().contains("obsidianirc/voice"@),
        wanted().contains("obsidianirc/cmdslist"@),
{
    let all = wanted();
    assert(all[0] == "message-tags"@);
    assert(all[1] == "server-time"@);
    assert(all[2] == "batch"@);
    assert(all[3] == "labeled-response"@);
    assert(all[4] == "echo-message"@);
    assert(all[10] == "account-tag"@);
    assert(all[11] == "away-notify"@);
    assert(all[8] == "extended-join"@);
    assert(all[6] == "multi-prefix"@);
    assert(all[18] == "draft/chathistory"@);
    assert(all[20] == "draft/read-marker"@);
    assert(all[22] == "draft/message-redaction"@);
    assert(all[28] == "draft/metadata-2"@);
    assert(all[26] == "standard-replies"@);
    assert(all[31] == "sasl"@);
    assert(all[47] == "obsidianirc/voice"@);
    assert(all[38] == "obsidianirc/cmdslist"@);
}

/// A line that grows past the longest that may be is dropped whole: what came of it is let go and
/// counted once, and what still comes of it, up to its end, is skipped.
pub proof fn law_overlong_line_is_dropped(c: ClientView, start: Seq<u8>, rest: Seq<u8>)
    requires
        c.partial.len() == 0,
        !c.discarding,
        !start.contains(10u8),
        start.len() > 8703,
        !rest.contains(10u8),
    ensures
        ({
            let after = c.feeding(start);
            let end = after.feeding(rest + seq![10u8]);
            &&& after.partial.len() == 0 && after.discarding
            &&& c.dropped_lines < u64::MAX ==> after.dropped_lines == c.dropped_lines + 1
            &&& after.events == c.events && after.outbox == c.outbox && after.model == c.model
            &&& end.partial.len() == 0 && !end.discarding
            &&& end.dropped_lines == after.dropped_lines
            &&& end.events == c.events && end.outbox == c.outbox && end.model == c.model
        }),
{
    assert(c.partial + start =~= start);
    assert forall|i: int| 0 <= i < start.len() implies start[i] != 10 by {
        assert(start.contains(start[i]));
    }
    lemma_ends_at(start, start.len());
    let after = c.feeding(start);
    let bytes = rest + seq![10u8];
    assert(after.partial + bytes =~= bytes);
    assert forall|i: int| 0 <= i < rest.len() implies bytes[i] != 10 by {
        assert(bytes[i] == rest[i]);
        assert(rest.contains(rest[i]));
    }
    lemma_ends_at(bytes, rest.len());
    let none = bytes.skip(rest.len() as int + 1);
    assert(none =~= Seq::<u8>::empty());
    let open = ClientView { partial: Seq::empty(), ..after };
    let taken = open.taking(bytes.take(rest.len() as int + 1));
    assert(taken == (ClientView { discarding: false, ..open }));
    assert(taken.reading(none) == (ClientView { partial: none, ..taken }));
}

/// A configuration that only names a nick has it for everything that it needs a name for, no
/// password, no account and nothing to fall back on.
pub proof fn law_plain_configuration(nick: Seq<char>)
    ensures
        ({
            let config = ConfigView::named(nick);
            &&& config.nick == nick && config.username == nick && config.realname == nick
            &&& config.password is None && config.sasl is None
            &&& config.alt_nicks.len() == 0
            &&& config.retention == 5000
        }),
{
}

} // verus!
