//! What holds of the pieces that the model is made of: logs, standings, mentions, markers and calls
//! that come in pieces.

use vstd::prelude::*;

use crate::isupport::FeaturesView;
use crate::model::{granted, revoked, LogView, MessageKey, MessageView, ModelView};
use crate::sdp::ReassemblerView;
use crate::session::{mentioned, nick_char, on_line, whole_word_at};
use crate::text::upper;
use crate::voice::ChunkMetaView;
use crate::wire::{server_time, Casemapping, LineView};

verus! {

/// A standing that is given is had, one that is taken is not, and no other is touched.
pub proof fn law_standing_is_given_and_taken(
    order: Seq<(char, char)>,
    prefixes: Seq<char>,
    c: char,
    other: char,
)
    requires
        other != c,
    ensures
        granted(order, prefixes, c).contains(c),
        granted(order, prefixes, c).contains(other) <==> prefixes.contains(other),
        !revoked(prefixes, c).contains(c),
        revoked(prefixes, c).contains(other) <==> prefixes.contains(other),
{
    let all = prefixes.push(c);
    assert(all[prefixes.len() as int] == c);
    lemma_ranked(order, all, c);
    lemma_ranked(order, all, other);
    if prefixes.contains(other) {
        assert(all[prefixes.index_of(other)] == other);
    }
    if all.contains(other) {
        assert(prefixes[all.index_of(other)] == other);
    }
    lemma_revoked(prefixes, c, c);
    lemma_revoked(prefixes, c, other);
}

proof fn lemma_revoked(prefixes: Seq<char>, c: char, x: char)
    ensures
        revoked(prefixes, c).contains(x) <==> prefixes.contains(x) && x != c,
{
    let keep = crate::model::other_than(c);
    if revoked(prefixes, c).contains(x) {
        let k = revoked(prefixes, c).index_of(x);
        prefixes.lemma_filter_pred(keep, k);
        prefixes.lemma_filter_contains_rev(keep, x);
    }
    if prefixes.contains(x) && x != c {
        prefixes.lemma_filter_contains(keep, prefixes.index_of(x));
    }
}

proof fn lemma_ranked(order: Seq<(char, char)>, s: Seq<char>, x: char)
    ensures
        crate::model::ranked(order, s).contains(x) <==> s.contains(x),
    decreases s.len(),
{
    if s.len() > 0 {
        let rest = s.drop_last();
        lemma_ranked(order, rest, x);
        lemma_placed(order, crate::model::ranked(order, rest), s.last(), x);
        assert(s[s.len() - 1] == s.last());
        if rest.contains(x) {
            assert(s[rest.index_of(x)] == x);
        }
        if s.contains(x) && x != s.last() {
            assert(rest[s.index_of(x)] == x);
        }
    }
}

proof fn lemma_placed(order: Seq<(char, char)>, s: Seq<char>, c: char, x: char)
    ensures
        crate::model::placed(order, s, c).contains(x) <==> s.contains(x) || x == c,
    decreases s.len(),
{
    let all = crate::model::placed(order, s, c);
    if s.len() == 0 {
        assert(all[0] == c);
    } else if crate::model::ranks_below(order, s[0], c) {
        assert(all =~= seq![c] + s);
        assert(all[0] == c);
        if s.contains(x) {
            assert(all[s.index_of(x) + 1] == x);
        }
        if all.contains(x) && x != c {
            assert(s[all.index_of(x) - 1] == x);
        }
    } else {
        let rest = s.drop_first();
        let less = crate::model::placed(order, rest, c);
        lemma_placed(order, rest, c, x);
        assert(all =~= seq![s[0]] + less);
        assert(all[0] == s[0]);
        if less.contains(x) {
            assert(all[less.index_of(x) + 1] == x);
        }
        if all.contains(x) && x != s[0] {
            assert(less[all.index_of(x) - 1] == x);
        }
        if rest.contains(x) {
            assert(s[rest.index_of(x) + 1] == x);
        }
        if s.contains(x) && x != s[0] {
            assert(rest[s.index_of(x) - 1] == x);
        }
    }
}

/// Only the same message is taken for one that is there: by its id where it has one, and otherwise
/// by the instant, the sender, the words and the kind together. Any other is kept.
pub proof fn law_only_the_same_is_there_already(log: LogView, m: MessageView, k: MessageKey)
    requires
        log.messages.dom().finite(),
        log.messages.len() < log.retention,
        m.msgid is Some ==> !log.by_msgid.contains_key(m.msgid->0),
        m.msgid is None ==> forall|k: MessageKey| #[trigger]
            log.messages.contains_key(k) && k.time_ms == m.key.time_ms ==> log.messages[k].sender
                != m.sender || log.messages[k].text != m.text || log.messages[k].kind != m.kind,
    ensures
        log.inserted(m).messages.contains_key(m.key),
        log.inserted(m).messages[m.key] == m,
        k != m.key && log.messages.contains_key(k) ==> log.inserted(m).messages.contains_key(k)
            && log.inserted(m).messages[k] == log.messages[k],
        m.msgid is Some ==> log.inserted(m).get(m.msgid->0) == Some(m),
{
    assert(!log.has(m));
    assert(log.with(m).messages.len() <= log.messages.len() + 1);
    assert(log.with(m).trimmed() == log.with(m));
}

/// The characters that a nick is made of, as far as they are plain ones: letters, digits, the
/// hyphen and the brackets and accents that servers allow.
pub proof fn law_nick_characters(c: char)
    requires
        c <= '\u{7f}',
    ensures
        nick_char(c) <==> 'a' <= c <= 'z' || 'A' <= c <= 'Z' || '0' <= c <= '9' || c == '-' || c
            == '[' || c == ']' || c == '\\' || c == '`' || c == '_' || c == '^' || c == '{' || c
            == '|' || c == '}',
{
}

/// A text that has our nick between blanks or marks names us, however it is cased; one in which the
/// nick is only a part of a longer word does not.
pub proof fn law_named_as_a_word(
    casemapping: Casemapping,
    before: Seq<char>,
    named: Seq<char>,
    after: Seq<char>,
    nick: Seq<char>,
)
    requires
        nick.len() > 0,
        forall|i: int|
            0 <= i < casemapping.folded(nick).len() ==> nick_char(
                #[trigger] casemapping.folded(nick)[i],
            ),
        casemapping.folded(named) == casemapping.folded(nick),
    ensures
        (before.len() == 0 || before.last() == ' ' || before.last() == '@' || before.last() == ',')
            && (after.len() == 0 || after[0] == ' ' || after[0] == ':' || after[0] == ','
            || after[0] == '!' || after[0] == '?' || after[0] == '.') ==> mentioned(
            casemapping,
            before + named + after,
            nick,
        ),
{
    let text = before + named + after;
    let folded = casemapping.folded(text);
    let who = casemapping.folded(nick);
    let at = before.len() as int;
    assert(casemapping.folded(named).len() == named.len());
    assert(who.len() == nick.len());
    assert(folded.subrange(at, at + who.len()) =~= who) by {
        assert forall|i: int| 0 <= i < who.len() implies folded[at + i] == who[i] by {
            assert(text[at + i] == named[i]);
            assert(casemapping.folded(named)[i] == who[i]);
        }
    }
    if (before.len() == 0 || before.last() == ' ' || before.last() == '@' || before.last() == ',')
        && (after.len() == 0 || after[0] == ' ' || after[0] == ':' || after[0] == ',' || after[0]
        == '!' || after[0] == '?' || after[0] == '.') {
        if before.len() > 0 {
            assert(text[at - 1] == before.last());
            assert(folded[at - 1] == casemapping.folded_char(before.last()));
        }
        if after.len() > 0 {
            assert(text[at + named.len()] == after[0]);
            assert(folded[at + who.len()] == casemapping.folded_char(after[0]));
        }
        assert(whole_word_at(folded, who, at));
        crate::session::law_mention_is_a_whole_word(casemapping, text, nick);
    }
}

/// A nick that runs on into another letter, on either side, is another word: a text that is nothing
/// else names nobody.
pub proof fn law_part_of_a_word_is_no_mention(casemapping: Casemapping, nick: Seq<char>, c: char)
    requires
        nick.len() > 0,
        forall|i: int|
            0 <= i < casemapping.folded(nick).len() ==> nick_char(
                #[trigger] casemapping.folded(nick)[i],
            ),
        'a' <= c <= 'z' || '0' <= c <= '9' || c == '-' || c == '_',
    ensures
        !mentioned(casemapping, nick + seq![c], nick),
        !mentioned(casemapping, seq![c] + nick, nick),
{
    let who = casemapping.folded(nick);
    let n = nick.len() as int;
    let (a, b) = (nick + seq![c], seq![c] + nick);
    crate::session::law_mention_is_a_whole_word(casemapping, a, nick);
    crate::session::law_mention_is_a_whole_word(casemapping, b, nick);
    let (x, y) = (casemapping.folded(a), casemapping.folded(b));
    assert(who.len() == n && x.len() == n + 1 && y.len() == n + 1);
    assert forall|i: int| 0 <= i < n implies x[i] == who[i] && y[i + 1] == who[i] by {
        assert(a[i] == nick[i] && b[i + 1] == nick[i]);
    }
    assert(a[n] == c && b[0] == c);
    assert(x[n] == c && y[0] == c);
    assert forall|at: int| 0 <= at implies !#[trigger] whole_word_at(x, who, at) by {
        if at == 1 {
            assert(nick_char(who[0]));
        }
    }
    assert forall|at: int| 0 <= at implies !#[trigger] whole_word_at(y, who, at) by {
        if at == 0 {
            assert(nick_char(who[n - 1]));
            assert(y[n] == who[n - 1]);
        }
    }
}

/// Once the server says how far we have read, what is unread is what others said after that instant
/// and is no history, if that is less than was counted; what names us among it is what is left of
/// the mentions. A marker before every message that we hold says nothing of them.
pub proof fn law_marker_leaves_what_came_after(
    m: ModelView,
    f: FeaturesView,
    latest_ms: u64,
    historical: bool,
    line: LineView,
    target: Seq<char>,
    marker: Seq<char>,
    at: u64,
)
    requires
        upper(line.command) == "MARKREAD"@,
        line.param(0) == Some(target),
        line.param(1) == Some("timestamp="@ + marker),
        m.channels.contains_key(f.fold(target)),
        server_time(marker) == Some(at),
    ensures
        ({
            let was = m.channels[f.fold(target)];
            let now = on_line(m, f, latest_ms, historical, line).model.channels[f.fold(target)];
            let held = was.log.in_time();
            let left = held.filter(
                |msg: MessageView| !msg.own && !msg.historical && msg.key.time_ms > at,
            );
            let named = left.filter(
                |msg: MessageView| mentioned(f.casemapping(), msg.text, m.me.nick),
            );
            let reached = exists|i: int|
                0 <= i < held.len() && (#[trigger] held[i]).key.time_ms <= at;
            &&& reached && left.len() <= was.unread ==> now.unread == left.len()
            &&& reached && left.len() > was.unread ==> now.unread == was.unread
            &&& reached && named.len() <= was.mentions ==> now.mentions == named.len()
            &&& reached && named.len() > was.mentions ==> now.mentions == was.mentions
            &&& !reached ==> now.unread == was.unread && now.mentions == was.mentions
        }),
{
    crate::session_laws::lemma_event_of(m, f, line);
    let text = "timestamp="@ + marker;
    assert("timestamp="@.is_prefix_of(text)) by {
        assert(text.take("timestamp="@.len() as int) =~= "timestamp="@);
    }
    assert(text.skip("timestamp="@.len() as int) =~= marker);
    reveal(crate::session::left_unread);
    reveal(crate::session::left_mentions);
    let after = |msg: MessageView| !msg.own && !msg.historical && msg.key.time_ms > at;
    let names = |msg: MessageView| mentioned(f.casemapping(), msg.text, m.me.nick);
    assert(crate::session::counted_after(at) =~= after);
    assert(crate::session::naming(f.casemapping(), m.me.nick) =~= names);
}

/// A piece of a call that makes no sense is not taken: one of none, one past the last, one of more
/// than there may be, one that disagrees with the others on how many there are, or one of a new
/// call where as many are waited for as may be. It yields nothing and changes nothing.
pub proof fn law_senseless_piece_is_refused(
    r: ReassemblerView,
    chunk: ChunkMetaView,
    sdp: Seq<char>,
)
    requires
        chunk.total == 0 || chunk.seq >= chunk.total || chunk.total > r.max_chunks || (
        r.partials.contains_key(chunk.id) && r.partials[chunk.id].total != chunk.total) || (
        !r.partials.contains_key(chunk.id) && r.partials.len() >= r.max_concurrent),
    ensures
        r.yielded(chunk, sdp) is None,
        r.after(chunk, sdp) == r,
{
}

/// A piece that makes sense is kept until the last one comes, and other calls are not touched by
/// it.
pub proof fn law_piece_is_kept(
    r: ReassemblerView,
    chunk: ChunkMetaView,
    sdp: Seq<char>,
    other: Seq<char>,
)
    requires
        r.bounded(),
        0 <= chunk.seq < chunk.total <= r.max_chunks,
        chunk.total > 1,
        !r.partials.contains_key(chunk.id),
        r.partials.len() < r.max_concurrent,
        other != chunk.id,
    ensures
        r.yielded(chunk, sdp) is None,
        r.after(chunk, sdp).partials.contains_key(chunk.id),
        r.after(chunk, sdp).partials[chunk.id].total == chunk.total,
        r.after(chunk, sdp).partials[chunk.id].parts.contains_key(chunk.seq),
        r.after(chunk, sdp).partials[chunk.id].parts[chunk.seq] == sdp,
        r.after(chunk, sdp).partials.contains_key(other) == r.partials.contains_key(other),
        r.partials.contains_key(other) ==> r.after(chunk, sdp).partials[other] == r.partials[other],
{
    let one = Map::<u32, Seq<char>>::empty().insert(chunk.seq, sdp);
    assert(one.dom() =~= Set::empty().insert(chunk.seq));
    assert(one.len() == 1);
}

} // verus!
