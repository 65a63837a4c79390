//! What holds of the pieces that lines are made of: names, tags, words, modes and what a server
//! says of itself.

use vstd::prelude::*;

use crate::echo::{reaction_to, ReactionView};
use crate::event::EventView;
use crate::extensions::{created_on, entry_on, preview_on, privileged};
use crate::isupport::{unescaped, FeaturesView, ModeChangeView};
use crate::model::{MessageKey, ModelView};
use crate::session::ChangeView;
use crate::text::{fields, joined, lower, words};
use crate::wire::{
    ctcp, prefix_chars, prefix_granted, prefix_modes, prefix_of, prefix_rank, prefix_run, tag_value,
    Casemapping, CtcpView, LineView, TagView,
};

verus! {

/// True when two characters are a capital letter and its small one, in either order.
pub open spec fn cases_of_one(a: char, b: char) -> bool {
    ||| 'A' <= a <= 'Z' && b as u32 == a as u32 + 32
    ||| 'A' <= b <= 'Z' && a as u32 == b as u32 + 32
}

/// True when a casemapping takes two characters for one: the two cases of a letter, and for all but
/// the plainest the brackets and braces, and for the oldest the tilde and the caret too.
pub open spec fn taken_for_one(casemapping: Casemapping, a: char, b: char) -> bool {
    ||| a == b
    ||| cases_of_one(a, b)
    ||| casemapping != Casemapping::Ascii && {
        ||| a == '[' && b == '{' || a == '{' && b == '['
        ||| a == ']' && b == '}' || a == '}' && b == ']'
        ||| a == '\\' && b == '|' || a == '|' && b == '\\'
    }
    ||| casemapping == Casemapping::Rfc1459 && (a == '~' && b == '^' || a == '^' && b == '~')
}

/// Two names are one exactly when they are as long and each character of the one is taken for that
/// of the other. What a name folds to is one of its spellings, and has no capital letter in it.
pub proof fn law_names_are_compared_by_character(
    casemapping: Casemapping,
    a: Seq<char>,
    b: Seq<char>,
)
    ensures
        casemapping.folded(a) == casemapping.folded(b) <==> a.len() == b.len() && forall|i: int|
            0 <= i < a.len() ==> taken_for_one(casemapping, #[trigger] a[i], b[i]),
        casemapping.folded(a).len() == a.len(),
        forall|i: int|
            0 <= i < a.len() ==> taken_for_one(
                casemapping,
                #[trigger] a[i],
                casemapping.folded(a)[i],
            ),
        forall|i: int|
            0 <= i < a.len() ==> !('A' <= #[trigger] casemapping.folded(a)[i] <= 'Z'),
{
    let (x, y) = (casemapping.folded(a), casemapping.folded(b));
    assert forall|i: int| 0 <= i < a.len() && 0 <= i < b.len() implies (x[i] == y[i])
        == taken_for_one(casemapping, #[trigger] a[i], b[i]) by {}
    if x == y {
        assert(x.len() == y.len());
    }
    if a.len() == b.len() && forall|i: int|
        0 <= i < a.len() ==> taken_for_one(casemapping, #[trigger] a[i], b[i]) {
        assert(x =~= y);
    }
}

proof fn lemma_casemapping_names()
    ensures
        "ascii"@.len() == 5,
        "rfc1459-strict"@.len() == 14,
        "rfc1459"@.len() == 7,
{
    reveal_strlit("ascii");
    reveal_strlit("rfc1459-strict");
    reveal_strlit("rfc1459");
}

/// A server that says how it compares names is believed, and one that does not compares them the
/// old way.
pub proof fn law_casemapping_is_the_servers(f: FeaturesView, a: Seq<char>, b: Seq<char>)
    ensures
        f.tokens.contains_key("CASEMAPPING"@) && f.tokens["CASEMAPPING"@] == Some("ascii"@)
            ==> f.fold(a) == Casemapping::Ascii.folded(a),
        f.tokens.contains_key("CASEMAPPING"@) && f.tokens["CASEMAPPING"@] == Some(
            "rfc1459-strict"@,
        ) ==> f.fold(a) == Casemapping::Rfc1459Strict.folded(a),
        f.tokens.contains_key("CASEMAPPING"@) && f.tokens["CASEMAPPING"@] == Some("rfc1459"@)
            ==> f.fold(a) == Casemapping::Rfc1459.folded(a),
        !f.tokens.contains_key("CASEMAPPING"@) ==> f.fold(a) == Casemapping::Rfc1459.folded(a),
        f.same_name(a, b) <==> f.fold(a) == f.fold(b),
{
    lemma_casemapping_names();
}

/// A name is that of a channel when it starts with one of the characters that the server gives for
/// that, and where it gives none with a hash or an ampersand. The empty name is no channel's.
pub proof fn law_channel_names(f: FeaturesView, name: Seq<char>, types: Seq<char>)
    ensures
        name.len() == 0 ==> !f.is_channel(name),
        name.len() > 0 && types.len() > 0 && f.tokens.contains_key("CHANTYPES"@)
            && f.tokens["CHANTYPES"@] == Some(types) ==> (f.is_channel(name) <==> types.contains(
            name[0],
        )),
        name.len() > 0 && !f.tokens.contains_key("CHANTYPES"@) ==> (f.is_channel(name) <==> name[0]
            == '#' || name[0] == '&'),
{
}

/// The value of a tag is that of the last one with its key, and a key that no tag has gives none.
pub proof fn law_last_tag_counts(tags: Seq<TagView>, key: Seq<char>, i: int)
    ensures
        0 <= i < tags.len() && tags[i].key == key && (forall|j: int|
            i < j < tags.len() ==> (#[trigger] tags[j]).key != key) ==> tag_value(tags, key)
            == tags[i].value,
        (forall|j: int| 0 <= j < tags.len() ==> (#[trigger] tags[j]).key != key) ==> tag_value(
            tags,
            key,
        ) is None,
    decreases tags.len(),
{
    if tags.len() > 0 {
        let rest = tags.drop_last();
        law_last_tag_counts(rest, key, i);
        assert(tags[tags.len() - 1] == tags.last());
        if forall|j: int| 0 <= j < tags.len() ==> (#[trigger] tags[j]).key != key {
            assert forall|j: int| 0 <= j < rest.len() implies (#[trigger] rest[j]).key != key by {
                assert(rest[j] == tags[j]);
            }
        }
        if 0 <= i < tags.len() - 1 && forall|j: int|
            i < j < tags.len() ==> (#[trigger] tags[j]).key != key {
            assert forall|j: int| i < j < rest.len() implies (#[trigger] rest[j]).key != key by {
                assert(rest[j] == tags[j]);
            }
        }
    }
}

/// What a message answers is told by either name of the tag, and by the settled one where both are
/// there.
pub proof fn law_reply_is_told_by_either_name(line: LineView)
    ensures
        line.tag("+reply"@) is Some ==> line.reply_tag() == line.tag("+reply"@),
        line.tag("+reply"@) is None ==> line.reply_tag() == line.tag("+draft/reply"@),
{
}

/// A command that is not in plain words stands between its marks, and so does what follows it; the
/// closing mark may be missing. Text without the opening mark is just text.
pub proof fn law_marked_commands(command: Seq<char>, params: Seq<char>, body: Seq<char>)
    requires
        !command.contains(' '),
        params.len() > 0 && params.last() != '\u{1}',
        command.len() > 0 && command.last() != '\u{1}',
    ensures
        ctcp(seq!['\u{1}'] + command + seq![' '] + params + seq!['\u{1}']) == Some(
            CtcpView { command, params },
        ),
        ctcp(seq!['\u{1}'] + command + seq![' '] + params) == Some(CtcpView { command, params }),
        ctcp(seq!['\u{1}'] + command + seq!['\u{1}']) == Some(
            CtcpView { command, params: Seq::empty() },
        ),
        body.len() == 0 || body[0] != '\u{1}' ==> ctcp(body) is None,
{
    let inner = command + seq![' '] + params;
    let shut = seq!['\u{1}'] + command + seq![' '] + params + seq!['\u{1}'];
    let left = seq!['\u{1}'] + command + seq![' '] + params;
    let bare = seq!['\u{1}'] + command + seq!['\u{1}'];
    assert(shut.skip(1).drop_last() =~= inner);
    assert(shut.skip(1).last() == '\u{1}');
    assert(left.skip(1) =~= inner);
    assert(inner.last() == params.last());
    assert(bare.skip(1).drop_last() =~= command);
    assert(bare.skip(1).last() == '\u{1}');
    assert forall|i: int| 0 <= i < command.len() implies inner[i] != ' ' by {
        assert(inner[i] == command[i]);
        assert(command.contains(command[i]));
    }
    assert forall|i: int| 0 <= i < command.len() implies command[i] != ' ' by {
        assert(command.contains(command[i]));
    }
    crate::text::lemma_first_at_is(inner, ' ', command.len());
    crate::text::lemma_first_at_is(command, ' ', command.len());
    assert(inner.take(command.len() as int) =~= command);
    assert(inner.skip(command.len() as int + 1) =~= params);
}

/// A server lists the letters that grant a standing, and the signs for them in the same order. The
/// sign in some place is granted by the letter in that place and ranks by that place.
pub proof fn law_standing_letters(
    letters: Seq<char>,
    signs: Seq<char>,
    i: int,
)
    requires
        letters.len() > 0 && letters.len() == signs.len(),
        !letters.contains(')'),
        0 <= i < letters.len(),
        forall|j: int, k: int| 0 <= j < k < letters.len() ==> letters[j] != letters[k],
        forall|j: int, k: int| 0 <= j < k < signs.len() ==> signs[j] != signs[k],
    ensures
        ({
            let pairs = prefix_of(seq!['('] + letters + seq![')'] + signs);
            &&& pairs is Some
            &&& pairs->0.len() == letters.len()
            &&& prefix_granted(pairs->0, letters[i]) == Some(signs[i])
            &&& prefix_rank(pairs->0, signs[i]) == Some(i as nat)
        }),
{
    let value = seq!['('] + letters + seq![')'] + signs;
    let inner = letters + seq![')'] + signs;
    assert(value.skip(1) =~= inner);
    assert forall|j: int| 0 <= j < letters.len() implies inner[j] != ')' by {
        assert(inner[j] == letters[j]);
        assert(letters.contains(letters[j]));
    }
    crate::text::lemma_first_at_is(inner, ')', letters.len());
    assert(inner.take(letters.len() as int) =~= letters);
    assert(inner.skip(letters.len() as int + 1) =~= signs);
    let pairs = letters.zip_with(signs);
    assert(prefix_of(value) == Some(pairs));
    assert(prefix_modes(pairs) =~= letters);
    assert(prefix_chars(pairs) =~= signs);
    crate::text::lemma_first_at_is(letters, letters[i], i as nat);
    crate::text::lemma_first_at_is(signs, signs[i], i as nat);
}

/// The signs of standing before a name end where the name begins.
pub proof fn law_signs_before_a_name(pairs: Seq<(char, char)>, signs: Seq<char>, name: Seq<char>)
    requires
        forall|i: int| 0 <= i < signs.len() ==> prefix_chars(pairs).contains(#[trigger] signs[i]),
        name.len() > 0 ==> !prefix_chars(pairs).contains(name[0]),
    ensures
        prefix_run(pairs, signs + name) == signs.len(),
    decreases signs.len(),
{
    let entry = signs + name;
    if signs.len() > 0 {
        let rest = signs.drop_first();
        assert forall|i: int| 0 <= i < rest.len() implies prefix_chars(pairs).contains(
            #[trigger] rest[i],
        ) by {
            assert(rest[i] == signs[i + 1]);
        }
        law_signs_before_a_name(pairs, rest, name);
        assert(entry.drop_first() =~= rest + name);
        assert(entry[0] == signs[0]);
    } else {
        assert(entry =~= name);
    }
}

/// What is joined by a separator falls apart into the same pieces.
pub proof fn law_joined_falls_apart(parts: Seq<Seq<char>>, sep: char)
    requires
        parts.len() > 0,
        forall|i: int| 0 <= i < parts.len() ==> !(#[trigger] parts[i]).contains(sep),
    ensures
        fields(joined(parts, seq![sep]), sep) == parts,
    decreases parts.len(),
{
    if parts.len() == 1 {
        lemma_one_field(parts[0], sep);
        assert(seq![parts[0]] =~= parts);
    } else {
        let rest = parts.drop_last();
        assert forall|i: int| 0 <= i < rest.len() implies !(#[trigger] rest[i]).contains(sep) by {
            assert(rest[i] == parts[i]);
        }
        law_joined_falls_apart(rest, sep);
        assert(!parts[parts.len() - 1].contains(sep));
        lemma_field_more(joined(rest, seq![sep]), parts.last(), sep);
        assert(rest.push(parts.last()) =~= parts);
    }
}

proof fn lemma_one_field(s: Seq<char>, sep: char)
    requires
        !s.contains(sep),
    ensures
        fields(s, sep) == seq![s],
{
    assert forall|i: int| 0 <= i < s.len() implies s[i] != sep by {
        assert(s.contains(s[i]));
    }
    crate::text::lemma_first_at_is(s, sep, s.len());
}

proof fn lemma_field_more(s: Seq<char>, last: Seq<char>, sep: char)
    requires
        !last.contains(sep),
    ensures
        fields(s + seq![sep] + last, sep) == fields(s, sep).push(last),
    decreases s.len(),
{
    let all = s + seq![sep] + last;
    crate::text::lemma_first_at(s, sep);
    let n = crate::text::first_at(s, sep);
    assert forall|i: int| 0 <= i < n implies all[i] != sep by {
        assert(all[i] == s[i]);
    }
    crate::text::lemma_first_at_is(all, sep, n);
    if n < s.len() {
        let rest = s.skip(n as int + 1);
        lemma_field_more(rest, last, sep);
        assert(all.skip(n as int + 1) =~= rest + seq![sep] + last);
        assert(all.take(n as int) =~= s.take(n as int));
        assert(seq![s.take(n as int)] + fields(rest, sep).push(last) =~= (seq![s.take(n as int)]
            + fields(rest, sep)).push(last));
    } else {
        assert(all.take(n as int) =~= s);
        assert(all.skip(n as int + 1) =~= last);
        lemma_one_field(last, sep);
        assert(seq![s] + seq![last] =~= seq![s].push(last));
    }
}

/// Words with a blank between them are those words.
pub proof fn law_words_are_read(list: Seq<Seq<char>>)
    requires
        forall|i: int, j: int|
            0 <= i < list.len() && 0 <= j < list[i].len() ==> !crate::text::white_space(
                #[trigger] list[i][j],
            ),
        forall|i: int| 0 <= i < list.len() ==> (#[trigger] list[i]).len() > 0,
    ensures
        words(joined(list, seq![' '])) == list,
    decreases list.len(),
{
    if list.len() == 0 {
        assert(words(Seq::<char>::empty()) =~= list);
    } else if list.len() == 1 {
        lemma_word_then(list[0], Seq::empty());
        assert(list[0] + Seq::<char>::empty() =~= list[0]);
        assert(words(Seq::<char>::empty()) =~= Seq::empty());
        assert(seq![list[0]] + Seq::<Seq<char>>::empty() =~= list);
    } else {
        let first = list[0];
        let rest = list.drop_first();
        assert forall|i: int, j: int|
            0 <= i < rest.len() && 0 <= j < rest[i].len() implies !crate::text::white_space(
            #[trigger] rest[i][j],
        ) by {
            assert(rest[i] == list[i + 1]);
            assert(!crate::text::white_space(list[i + 1][j]));
        }
        assert forall|i: int| 0 <= i < rest.len() implies (#[trigger] rest[i]).len() > 0 by {
            assert(rest[i] == list[i + 1]);
        }
        law_words_are_read(rest);
        lemma_joined_first(list);
        let tail = seq![' '] + joined(rest, seq![' ']);
        lemma_word_then(first, tail);
        assert(tail[0] == ' ');
        assert(crate::text::word_len(tail) == 0);
        assert(tail.drop_first() =~= joined(rest, seq![' ']));
        assert(words(tail) == rest);
        assert(joined(list, seq![' ']) =~= first + tail);
        assert(seq![first] + rest =~= list);
    }
}

proof fn lemma_joined_first(list: Seq<Seq<char>>)
    requires
        list.len() > 1,
    ensures
        joined(list, seq![' ']) == list[0] + seq![' '] + joined(list.drop_first(), seq![' ']),
    decreases list.len(),
{
    let rest = list.drop_first();
    if list.len() == 2 {
        assert(list.drop_last().len() == 1);
        assert(joined(list.drop_last(), seq![' ']) == list[0]);
        assert(joined(rest, seq![' ']) == list[1]);
    } else {
        lemma_joined_first(list.drop_last());
        assert(list.drop_last().drop_first() =~= rest.drop_last());
        assert(joined(rest, seq![' ']) == joined(rest.drop_last(), seq![' ']) + seq![' ']
            + rest.last());
        assert(joined(list, seq![' ']) =~= list[0] + seq![' '] + joined(rest, seq![' ']));
    }
}

proof fn lemma_word_then(word: Seq<char>, tail: Seq<char>)
    requires
        word.len() > 0,
        forall|j: int| 0 <= j < word.len() ==> !crate::text::white_space(#[trigger] word[j]),
        tail.len() == 0 || crate::text::white_space(tail[0]),
    ensures
        words(word + tail) == seq![word] + words(tail),
{
    let all = word + tail;
    lemma_word_ends(all, word.len());
    assert(all.take(word.len() as int) =~= word);
    assert(all.skip(word.len() as int) =~= tail);
}

proof fn lemma_word_ends(s: Seq<char>, n: nat)
    requires
        n <= s.len(),
        forall|j: int| 0 <= j < n ==> !crate::text::white_space(#[trigger] s[j]),
        n < s.len() ==> crate::text::white_space(s[n as int]),
    ensures
        crate::text::word_len(s) == n,
    decreases n,
{
    if n > 0 {
        let rest = s.drop_first();
        assert forall|j: int| 0 <= j < n - 1 implies !crate::text::white_space(
            #[trigger] rest[j],
        ) by {
            assert(rest[j] == s[j + 1]);
        }
        lemma_word_ends(rest, (n - 1) as nat);
        assert(!crate::text::white_space(s[0]));
    }
}

/// A mode letter takes an argument by the class that the server gives it: lists and keys always,
/// limits only when they are set, plain switches never, and a letter that grants a standing always.
/// The argument is the next one that is left, and the sign before the letter says whether it is
/// set.
pub proof fn law_mode_arguments(
    f: FeaturesView,
    classes: Seq<Seq<char>>,
    sign: char,
    letter: char,
    arg: Seq<char>,
)
    requires
        classes.len() == 4,
        forall|i: int| 0 <= i < 4 ==> !(#[trigger] classes[i]).contains(','),
        f.tokens.contains_key("CHANMODES"@),
        f.tokens["CHANMODES"@] == Some(joined(classes, seq![','])),
        sign == '+' || sign == '-',
        letter != '+' && letter != '-',
    ensures
        ({
            let read = f.channel_modes(seq![seq![sign, letter], arg]);
            let standing = prefix_modes(f.prefix).contains(letter);
            let takes = standing || classes[0].contains(letter) || classes[1].contains(letter) || (
            sign == '+' && classes[2].contains(letter));
            &&& read.len() == 1
            &&& read[0].set == (sign == '+')
            &&& read[0].mode == letter
            &&& read[0].membership == standing
            &&& takes ==> read[0].arg == Some(arg)
            &&& !takes ==> read[0].arg is None
        }),
{
    law_joined_falls_apart(classes, ',');
    let text = seq![sign, letter];
    let params = seq![text, arg];
    let args = params.skip(1);
    assert(args =~= seq![arg]);
    let letters = prefix_modes(f.prefix);
    assert(text.skip(1) =~= seq![letter]);
    assert(seq![letter].skip(1) =~= Seq::<char>::empty());
    reveal_with_fuel(crate::isupport::modes_from, 3);
    let set = sign == '+';
    let read = f.channel_modes(params);
    assert(read =~= seq![read[0]]);
}

/// Letters without arguments change one after the other, each by the sign before it.
pub proof fn law_user_mode_letters(text: Seq<char>, set: bool, i: int)
    requires
        forall|j: int| 0 <= j < text.len() ==> text[j] != '+' && text[j] != '-',
        0 <= i < text.len(),
    ensures
        crate::isupport::user_modes(text, set).len() == text.len(),
        crate::isupport::user_modes(text, set)[i] == (ModeChangeView {
            set,
            mode: text[i],
            arg: None,
            membership: false,
        }),
    decreases text.len(),
{
    let rest = text.drop_first();
    if rest.len() > 0 {
        assert forall|j: int| 0 <= j < rest.len() implies rest[j] != '+' && rest[j] != '-' by {
            assert(rest[j] == text[j + 1]);
        }
        law_user_mode_letters(rest, set, if i > 0 {
            i - 1
        } else {
            0
        });
        if i > 0 {
            assert(rest[i - 1] == text[i]);
        }
    } else {
        assert(crate::isupport::user_modes(rest, set) =~= Seq::empty());
    }
}

/// A value may hold what would end it, written by its number; what is not written so stands for
/// itself.
pub proof fn law_escaped_values(before: Seq<char>, after: Seq<char>)
    requires
        !before.contains('\\'),
    ensures
        unescaped(before + seq!['\\', 'x', '2', '0'] + after) == before + seq![' '] + unescaped(
            after,
        ),
        unescaped(before + seq!['\\', 'x', '3', 'D'] + after) == before + seq!['='] + unescaped(
            after,
        ),
        unescaped(before + seq!['\\', 'x', '5', 'C'] + after) == before + seq!['\\'] + unescaped(
            after,
        ),
    decreases before.len(),
{
    if before.len() == 0 {
        let a = before + seq!['\\', 'x', '2', '0'] + after;
        let b = before + seq!['\\', 'x', '3', 'D'] + after;
        let c = before + seq!['\\', 'x', '5', 'C'] + after;
        assert(a.skip(4) =~= after);
        assert(b.skip(4) =~= after);
        assert(c.skip(4) =~= after);
        assert(before + seq![' '] + unescaped(after) =~= seq![' '] + unescaped(after));
        assert(before + seq!['='] + unescaped(after) =~= seq!['='] + unescaped(after));
        assert(before + seq!['\\'] + unescaped(after) =~= seq!['\\'] + unescaped(after));
        assert(a[0] == '\\' && a[1] == 'x' && a[2] == '2' && a[3] == '0');
        assert(b[0] == '\\' && b[1] == 'x' && b[2] == '3' && b[3] == 'D');
        assert(c[0] == '\\' && c[1] == 'x' && c[2] == '5' && c[3] == 'C');
    } else {
        let rest = before.skip(1);
        assert forall|ch: char| rest.contains(ch) implies before.contains(ch) by {
            let k = rest.index_of(ch);
            assert(before[k + 1] == ch);
        }
        law_escaped_values(rest, after);
        assert(before.contains(before[0]));
        lemma_plain_first(before, seq!['\\', 'x', '2', '0'] + after);
        lemma_plain_first(before, seq!['\\', 'x', '3', 'D'] + after);
        lemma_plain_first(before, seq!['\\', 'x', '5', 'C'] + after);
        assert(before + seq!['\\', 'x', '2', '0'] + after =~= before + (seq!['\\', 'x', '2', '0']
            + after));
        assert(before + seq!['\\', 'x', '3', 'D'] + after =~= before + (seq!['\\', 'x', '3', 'D']
            + after));
        assert(before + seq!['\\', 'x', '5', 'C'] + after =~= before + (seq!['\\', 'x', '5', 'C']
            + after));
        assert(rest + seq!['\\', 'x', '2', '0'] + after =~= rest + (seq!['\\', 'x', '2', '0']
            + after));
        assert(rest + seq!['\\', 'x', '3', 'D'] + after =~= rest + (seq!['\\', 'x', '3', 'D']
            + after));
        assert(rest + seq!['\\', 'x', '5', 'C'] + after =~= rest + (seq!['\\', 'x', '5', 'C']
            + after));
        assert(before.take(1) + (rest + seq![' '] + unescaped(after)) =~= before + seq![' ']
            + unescaped(after));
        assert(before.take(1) + (rest + seq!['='] + unescaped(after)) =~= before + seq!['=']
            + unescaped(after));
        assert(before.take(1) + (rest + seq!['\\'] + unescaped(after)) =~= before + seq!['\\']
            + unescaped(after));
    }
}

proof fn lemma_plain_first(before: Seq<char>, rest: Seq<char>)
    requires
        before.len() > 0,
        before[0] != '\\',
    ensures
        unescaped(before + rest) == before.take(1) + unescaped(before.skip(1) + rest),
{
    let all = before + rest;
    assert(all[0] == before[0]);
    assert(all.take(1) =~= before.take(1));
    assert(all.skip(1) =~= before.skip(1) + rest);
}

/// An invitation that was made says by what it is known, for which channel, if any, and where it is
/// redeemed.
pub proof fn law_invitation_is_read(
    line: LineView,
    id: Seq<char>,
    channel: Seq<char>,
    url: Seq<char>,
)
    requires
        line.params.len() >= 3,
        line.params[0] == id,
        line.params[1] == channel,
        line.params[2] == url,
        lower(id) != lower("ENTRY"@),
    ensures
        created_on(line) is Some,
        created_on(line)->0.share_id == id,
        created_on(line)->0.url == url,
        channel == "*"@ ==> created_on(line)->0.channel is None,
        channel != "*"@ ==> created_on(line)->0.channel == Some(channel),
        created_on(line)->0.redeemed == 0,
        created_on(line)->0.created is None,
        created_on(line)->0.description is None,
        entry_on(line) is None,
{
}

/// An entry of the list of invitations says so, and when each was made, how often it was redeemed
/// and what it is for.
pub proof fn law_invitation_entry_is_read(
    line: LineView,
    id: Seq<char>,
    channel: Seq<char>,
    created: Seq<char>,
    count: u32,
    url: Seq<char>,
    about: Option<Seq<char>>,
)
    requires
        line.params == (if about is Some {
            seq!["ENTRY"@, id, channel, created, crate::text::decimal(count as nat), url, about->0]
        } else {
            seq!["ENTRY"@, id, channel, created, crate::text::decimal(count as nat), url]
        }),
    ensures
        entry_on(line) is Some,
        entry_on(line)->0.share_id == id,
        entry_on(line)->0.url == url,
        entry_on(line)->0.created == Some(created),
        entry_on(line)->0.redeemed == count,
        entry_on(line)->0.description == about,
        channel == "*"@ ==> entry_on(line)->0.channel is None,
        channel != "*"@ ==> entry_on(line)->0.channel == Some(channel),
        created_on(line) is None,
{
    lemma_decimal_read(count as nat);
}

/// A number that is written in decimal is read as that number.
pub proof fn lemma_decimal_read(n: nat)
    ensures
        crate::text::decimal(n).len() > 0,
        crate::text::all_digits(crate::text::decimal(n)),
        crate::text::digits_value(crate::text::decimal(n)) == n,
        crate::text::decimal(n)[0] != '+',
        forall|max: nat|
            n <= max ==> #[trigger] crate::text::unsigned(crate::text::decimal(n), max) == Some(n),
    decreases n,
{
    if n >= 10 {
        lemma_decimal_read(n / 10);
        let more = crate::text::decimal(n / 10);
        let all = crate::text::decimal(n);
        assert(all.drop_last() =~= more);
        assert(all[0] == more[0]);
    } else {
        let one = crate::text::decimal(n);
        assert(one.drop_last() =~= Seq::empty());
        reveal_with_fuel(crate::text::digits_value, 2);
    }
}

/// A preview belongs to the message that it answers, and says what its tags say; without a title or
/// without a message there is none.
pub proof fn law_preview_is_read(line: LineView, msgid: Seq<char>, title: Seq<char>)
    ensures
        line.reply_tag() == Some(msgid) && line.tag("obsidianirc/link-preview-title"@) == Some(title)
            ==> {
            let (id, preview) = preview_on(line)->0;
            &&& preview_on(line) is Some
            &&& id == msgid
            &&& preview.title == title
            &&& preview.snippet == line.tag("obsidianirc/link-preview-snippet"@)
            &&& preview.image == line.tag("obsidianirc/link-preview-meta"@)
        },
        line.reply_tag() is None ==> preview_on(line) is None,
        line.tag("obsidianirc/link-preview-title"@) is None ==> preview_on(line) is None,
{
}

/// A word that asks for a password or for rights is privileged, however it is cased.
pub proof fn law_privileged_words(name: Seq<char>)
    ensures
        lower(name) == lower("oper"@) || lower(name) == lower("identify"@) || lower(name) == lower(
            "nickserv"@,
        ) || lower(name) == lower("chanserv"@) || lower(name) == lower("ns"@) || lower(name)
            == lower("cs"@) || lower(name) == lower("register"@) || lower(name) == lower("pass"@)
            || lower(name) == lower("auth"@) || lower(name) == lower("login"@) <==> privileged(name),
{
    let all = crate::extensions::privileged_commands();
    assert(all[0] == "oper"@ && all[1] == "identify"@ && all[2] == "nickserv"@ && all[3]
        == "chanserv"@ && all[4] == "ns"@ && all[5] == "cs"@ && all[6] == "register"@ && all[7]
        == "pass"@ && all[8] == "auth"@ && all[9] == "login"@);
    assert(all.len() == 10);
}

/// Whoever says hello where we listen, and is not us, is greeted by name; whatever is said is heard
/// as it was said. Once registered we join, and a dead link ends it.
pub proof fn law_greeting(
    own: Seq<char>,
    casemapping: Casemapping,
    m: ModelView,
    target: Seq<char>,
    key: MessageKey,
    before: Seq<char>,
    after: Seq<char>,
    nick: Seq<char>,
)
    requires
        m.channels.contains_key(casemapping.folded(target)),
        m.channels[casemapping.folded(target)].log.messages.contains_key(key),
    ensures
        ({
            let message = m.channels[casemapping.folded(target)].log.messages[key];
            let r = reaction_to(
                own,
                casemapping,
                m,
                EventView::Changed { change: ChangeView::Message { target, key } },
            );
            &&& r matches ReactionView::Heard { target: t, sender, text, answer } && t == target
                && sender == message.sender && text == message.text && (message.sender == own
                ==> answer is None) && (message.sender != own && message.text == before + seq![
                'h',
                'e',
                'l',
                'l',
                'o',
            ] + after ==> answer == Some(seq!['h', 'e', 'l', 'l', 'o', ' '] + message.sender))
        }),
        reaction_to(own, casemapping, m, EventView::Registered { nick }) == (ReactionView::Join {
            nick,
        }),
        reaction_to(own, casemapping, m, EventView::LinkDead) == ReactionView::Stop,
{
    reveal_strlit("hello");
    reveal_strlit("hello ");
    assert("hello"@ =~= seq!['h', 'e', 'l', 'l', 'o']);
    assert("hello "@ =~= seq!['h', 'e', 'l', 'l', 'o', ' ']);
    let text = before + seq!['h', 'e', 'l', 'l', 'o'] + after;
    let at = before.len() as int;
    assert(text.subrange(at, at + 5) =~= "hello"@);
    assert(crate::session::occurs_at(text, "hello"@, at));
}

} // verus!
