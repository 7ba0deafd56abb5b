//! What the list of users and the settings mean, in plain terms.

use vstd::prelude::*;
use vstd::utf8;
use crate::config;
use crate::config::{CredentialsSource, RuleView, UserView};
use crate::policy;
use crate::text;
use crate::topic;

verus! {

/// Whether a rule names a kind of access, `read` or `write`, or both at once.
pub open spec fn names(rule: RuleView, word: Seq<char>) -> bool {
    rule.access == word || rule.access == seq![
        'r',
        'e',
        'a',
        'd',
        'w',
        'r',
        'i',
        't',
        'e',
    ]
}

/// Whether the filter of a rule matches a topic.
pub open spec fn covers(rule: RuleView, t: Seq<char>) -> bool {
    topic::levels_match(
        topic::levels(utf8::encode_utf8(t)),
        topic::levels(utf8::encode_utf8(rule.topic)),
    )
}

/// Whether a user has a rule that names a kind of access and covers a topic.
pub open spec fn has_rule_for(user: UserView, word: Seq<char>, t: Seq<char>) -> bool {
    exists|j: int|
        0 <= j < user.acl.len() && names(#[trigger] user.acl[j], word) && covers(user.acl[j], t)
}

/// Whether a user has a rule that names a kind of access, for the filter `#`.
pub open spec fn has_rule_for_all(user: UserView, word: Seq<char>) -> bool {
    exists|j: int|
        0 <= j < user.acl.len() && names(#[trigger] user.acl[j], word) && user.acl[j].topic
            == seq!['#']
}

/// Whether the user at a place is the last that is listed under a name.
pub open spec fn last_listed(users: Seq<UserView>, name: Seq<char>, k: int) -> bool {
    &&& 0 <= k < users.len()
    &&& users[k].username == name
    &&& forall|l: int| k < l < users.len() ==> (#[trigger] users[l]).username != name
}

/// The words for the kinds of access.
proof fn lemma_words()
    ensures
        "read"@ == seq!['r', 'e', 'a', 'd'],
        "write"@ == seq!['w', 'r', 'i', 't', 'e'],
        "readwrite"@ == seq!['r', 'e', 'a', 'd', 'w', 'r', 'i', 't', 'e'],
        "#"@ == seq!['#'],
        "read"@ != "write"@,
{
    reveal_strlit("read");
    reveal_strlit("write");
    reveal_strlit("readwrite");
    reveal_strlit("#");
    assert("read"@ =~= seq!['r', 'e', 'a', 'd']);
    assert("write"@ =~= seq!['w', 'r', 'i', 't', 'e']);
    assert("readwrite"@ =~= seq!['r', 'e', 'a', 'd', 'w', 'r', 'i', 't', 'e']);
    assert("#"@ =~= seq!['#']);
    assert("read"@.len() != "write"@.len());
}

/// Of users who are listed under one name the last counts.
pub proof fn law_last_listed_user_counts(users: Seq<UserView>, name: Seq<char>, k: int)
    requires
        last_listed(users, name, k),
    ensures
        config::user_named(users, name) == Some(users[k]),
    decreases users.len(),
{
    if k < users.len() - 1 {
        let front = users.drop_last();
        assert(users[users.len() - 1].username != name);
        assert forall|l: int| k < l < front.len() implies (#[trigger] front[l]).username != name by {
            assert(front[l] == users[l]);
        }
        law_last_listed_user_counts(front, name, k);
    }
}

/// Nobody is found under a name that is not listed.
proof fn lemma_unlisted(users: Seq<UserView>, name: Seq<char>)
    requires
        forall|l: int| 0 <= l < users.len() ==> (#[trigger] users[l]).username != name,
    ensures
        config::user_named(users, name) is None,
    decreases users.len(),
{
    if users.len() > 0 {
        let front = users.drop_last();
        assert(users[users.len() - 1].username != name);
        assert forall|l: int| 0 <= l < front.len() implies (#[trigger] front[l]).username
            != name by {
            assert(front[l] == users[l]);
        }
        lemma_unlisted(front, name);
    }
}

/// Who is not listed is not admitted, whatever the password, and may neither read nor write any
/// topic.
pub proof fn law_unlisted_user_may_nothing(
    users: Seq<UserView>,
    name: Seq<char>,
    t: Seq<char>,
    action: Seq<char>,
    verified: bool,
)
    requires
        forall|l: int| 0 <= l < users.len() ==> (#[trigger] users[l]).username != name,
    ensures
        !config::admitted(Some(users), name, verified),
        !config::authorized(Some(users), name, t, action),
        !config::authorized_for_all(Some(users), name, action),
{
    lemma_unlisted(users, name);
}

/// A listed user is admitted exactly with a password that fits, and where anonymous access was
/// enabled everybody is admitted and may do everything.
pub proof fn law_admission(
    users: Seq<UserView>,
    name: Seq<char>,
    k: int,
    t: Seq<char>,
    action: Seq<char>,
)
    requires
        last_listed(users, name, k),
    ensures
        config::admitted(Some(users), name, true),
        !config::admitted(Some(users), name, false),
        config::admitted(None, name, false),
        config::authorized(None, name, t, action),
        config::authorized_for_all(None, name, action),
{
    law_last_listed_user_counts(users, name, k);
}

/// A listed user may read a topic exactly where one of their rules names `read` or `readwrite` and
/// its filter matches the topic, and may write it exactly where one names `write` or `readwrite`
/// and its filter matches.
pub proof fn law_access_needs_a_rule(
    users: Seq<UserView>,
    name: Seq<char>,
    k: int,
    t: Seq<char>,
)
    requires
        last_listed(users, name, k),
    ensures
        config::authorized(Some(users), name, t, "read"@) <==> has_rule_for(
            users[k],
            seq!['r', 'e', 'a', 'd'],
            t,
        ),
        config::authorized(Some(users), name, t, "write"@) <==> has_rule_for(
            users[k],
            seq!['w', 'r', 'i', 't', 'e'],
            t,
        ),
{
    law_last_listed_user_counts(users, name, k);
    lemma_words();
    lemma_may(users[k], t, "read"@);
    lemma_may(users[k], t, "write"@);
}

/// What the rules of a user allow on a topic.
proof fn lemma_may(user: UserView, t: Seq<char>, word: Seq<char>)
    requires
        word == "read"@ || word == "write"@,
    ensures
        user.may(t, word) <==> has_rule_for(user, word, t),
        user.may_always(word) <==> has_rule_for_all(user, word),
{
    lemma_words();
    if user.may(t, word) {
        let j = choose|j: int|
            0 <= j < user.acl.len() && #[trigger] user.acl[j].allows(t, word);
        assert(names(user.acl[j], word) && covers(user.acl[j], t));
    }
    if has_rule_for(user, word, t) {
        let j = choose|j: int|
            0 <= j < user.acl.len() && names(#[trigger] user.acl[j], word) && covers(
                user.acl[j],
                t,
            );
        assert(user.acl[j].allows(t, word));
    }
    if user.may_always(word) {
        let j = choose|j: int|
            0 <= j < user.acl.len() && #[trigger] user.acl[j].allows_all(word);
        assert(names(user.acl[j], word) && user.acl[j].topic == seq!['#']);
    }
    if has_rule_for_all(user, word) {
        let j = choose|j: int|
            0 <= j < user.acl.len() && names(#[trigger] user.acl[j], word) && user.acl[j].topic
                == seq!['#'];
        assert(user.acl[j].allows_all(word));
    }
}

/// A listed user may read every topic without a further look at the rules exactly where a rule for
/// `#` names `read` or `readwrite`, and write every topic where one names `write` or `readwrite`.
pub proof fn law_access_to_everything_needs_a_rule(users: Seq<UserView>, name: Seq<char>, k: int)
    requires
        last_listed(users, name, k),
    ensures
        config::authorized_for_all(Some(users), name, "read"@) <==> has_rule_for_all(
            users[k],
            seq!['r', 'e', 'a', 'd'],
        ),
        config::authorized_for_all(Some(users), name, "write"@) <==> has_rule_for_all(
            users[k],
            seq!['w', 'r', 'i', 't', 'e'],
        ),
{
    law_last_listed_user_counts(users, name, k);
    lemma_words();
    lemma_may(users[k], Seq::empty(), "read"@);
    lemma_may(users[k], Seq::empty(), "write"@);
}

/// A file that lists users gives exactly those users. A file that cannot be read, or is no list of
/// users, admits nobody, whether or not anonymous access was enabled; only a missing file together
/// with anonymous access lets everybody in.
pub proof fn law_credentials_file(source: CredentialsSource, allow_anonymous: bool)
    ensures
        config::loaded(source, allow_anonymous) is None <==> source is Missing && allow_anonymous,
        source is Loaded ==> {
            let listed = source->Loaded_0.users@;
            let found = config::loaded(source, allow_anonymous)->0;
            &&& found.len() == listed.len()
            &&& forall|i: int| 0 <= i < listed.len() ==> #[trigger] found[i] == listed[i]@
        },
        source is Unreadable || source is Malformed || (source is Missing && !allow_anonymous)
            ==> config::loaded(source, allow_anonymous)->0.len() == 0,
{
}

/// Whether a text is a word in small or capital letters with white space around it: the word
/// begins at `i` and ends before `j`.
pub open spec fn written_at(s: Seq<char>, word: Seq<char>, i: int, j: int) -> bool {
    &&& 0 <= i && i + word.len() == j && j <= s.len()
    &&& forall|k: int| 0 <= k < i || j <= k < s.len() ==> text::is_white(#[trigger] s[k])
    &&& forall|k: int| i <= k < j ==> same_letter(#[trigger] s[k], word[k - i])
}

/// Whether a character is a small letter, or the capital of it.
pub open spec fn same_letter(c: char, small: char) -> bool {
    c == small || (0x41 <= c as u32 <= 0x5A && c as u32 + 32 == small as u32)
}

/// What is left of a text without the white space at its front.
proof fn lemma_trim_start(s: Seq<char>) -> (i: int)
    ensures
        0 <= i <= s.len(),
        text::trim_start(s) == s.skip(i),
        forall|k: int| 0 <= k < i ==> text::is_white(#[trigger] s[k]),
    decreases s.len(),
{
    if s.len() > 0 && text::is_white(s[0]) {
        let i = lemma_trim_start(s.drop_first());
        assert(s.drop_first().skip(i) =~= s.skip(i + 1));
        assert forall|k: int| 0 <= k < i + 1 implies text::is_white(#[trigger] s[k]) by {
            if k > 0 {
                assert(s.drop_first()[k - 1] == s[k]);
            }
        }
        i + 1
    } else {
        assert(s.skip(0) =~= s);
        0
    }
}

/// What is left of a text without the white space at its end.
proof fn lemma_trim_end(s: Seq<char>) -> (j: int)
    ensures
        0 <= j <= s.len(),
        text::trim_end(s) == s.take(j),
        forall|k: int| j <= k < s.len() ==> text::is_white(#[trigger] s[k]),
    decreases s.len(),
{
    if s.len() > 0 && text::is_white(s.last()) {
        let j = lemma_trim_end(s.drop_last());
        assert(s.drop_last().take(j) =~= s.take(j));
        assert forall|k: int| j <= k < s.len() implies text::is_white(#[trigger] s[k]) by {
            if k < s.len() - 1 {
                assert(s.drop_last()[k] == s[k]);
            }
        }
        j
    } else {
        assert(s.take(s.len() as int) =~= s);
        s.len() as int
    }
}

/// A setting reads as a word only where it is that word, in small or capital letters, with white
/// space around it.
pub proof fn law_setting_is_the_word(s: Seq<char>, word: Seq<char>)
    requires
        text::setting(s) == word,
    ensures
        exists|i: int, j: int| written_at(s, word, i, j),
{
    let i = lemma_trim_start(s);
    let tail = s.skip(i);
    let j = lemma_trim_end(tail);
    let t = tail.take(j);
    assert(t =~= s.subrange(i, i + j));
    assert(word.len() == j);
    assert forall|k: int| 0 <= k < i || i + j <= k < s.len() implies text::is_white(
        #[trigger] s[k],
    ) by {
        if k >= i + j {
            assert(tail[k - i] == s[k]);
        }
    }
    assert forall|k: int| i <= k < i + j implies same_letter(#[trigger] s[k], word[k - i]) by {
        assert(t[k - i] == s[k]);
        assert(word[k - i] == text::lower(t[k - i]));
    }
    assert(written_at(s, word, i, i + j));
}

/// Anonymous access is enabled only by a setting that is there and reads `true`.
pub proof fn law_only_true_enables_anonymous_access(value: Option<Seq<char>>)
    requires
        config::enables_anonymous(value),
    ensures
        value is Some,
        exists|i: int, j: int| written_at(value->0, seq!['t', 'r', 'u', 'e'], i, j),
{
    reveal_strlit("true");
    assert("true"@ =~= seq!['t', 'r', 'u', 'e']);
    law_setting_is_the_word(value->0, seq!['t', 'r', 'u', 'e']);
}

/// The digits of a number read as that number again.
pub proof fn law_decimal_is_read_back(v: nat, max: u64)
    requires
        v <= max,
    ensures
        text::number(text::decimal(v), max) == Some(v as u64),
{
    lemma_decimal(v);
    let digits = text::decimal(v);
    assert(text::after_sign(digits) == digits);
}

/// The decimal digits of a number are digits, and their value is the number.
proof fn lemma_decimal(v: nat)
    ensures
        text::all_digits(text::decimal(v)),
        text::digits_value(text::decimal(v)) == v,
        text::decimal(v).len() > 0,
        text::decimal(v)[0] != 43,
    decreases v,
{
    reveal_with_fuel(text::digits_value, 2);
    let digits = text::decimal(v);
    if v >= 10 {
        lemma_decimal(v / 10);
        let front = text::decimal(v / 10);
        assert(digits.drop_last() =~= front);
        assert forall|i: int| 0 <= i < digits.len() implies 48 <= #[trigger] digits[i] <= 57 by {
            if i < front.len() {
                assert(digits[i] == front[i]);
            }
        }
        assert(digits[0] == front[0]);
    } else {
        assert(digits.drop_last() =~= Seq::empty());
    }
}

/// The value of decimal digits goes by place: each digit counts ten times the next.
pub proof fn law_digits_count_by_place(front: Seq<u8>, digit: u8)
    requires
        48 <= digit <= 57,
    ensures
        text::digits_value(front.push(digit)) == 10 * text::digits_value(front) + (digit - 48),
        text::digits_value(Seq::empty()) == 0,
{
    assert(front.push(digit).drop_last() =~= front);
}

/// A number that is no number of decimal digits behind at most one `+`, or is too large, is not
/// read.
pub proof fn law_only_digits_are_read(s: Seq<u8>, max: u64)
    ensures
        text::number(s, max) is Some ==> s.len() > 0 && (s[0] == 0x2B || 0x30 <= s[0] <= 0x39)
            && (s[0] == 0x2B ==> s.len() > 1) && (forall|i: int|
            0 < i < s.len() ==> 0x30 <= #[trigger] s[i] <= 0x39),
        text::number(s, max) is Some ==> text::number(s, max)->0 <= max,
{
    if text::number(s, max) is Some {
        let digits = text::after_sign(s);
        assert(0x30 <= digits[0] <= 0x39);
        assert forall|i: int| 0 < i < s.len() implies 0x30 <= #[trigger] s[i] <= 0x39 by {
            if s[0] == 43 {
                assert(digits[i - 1] == s[i]);
            } else {
                assert(digits[i] == s[i]);
            }
        }
    }
}

/// A setting with bounds keeps to them: a number between them is taken as it is, one beyond them
/// becomes the bound that it passed, and what is missing or no number becomes the default.
pub proof fn law_setting_keeps_to_its_bounds(
    value: Option<Seq<char>>,
    low: u64,
    high: u64,
    default: u64,
)
    requires
        low <= default <= high,
    ensures
        low <= policy::bounded(value, low, high, default) <= high,
        value is None ==> policy::bounded(value, low, high, default) == default,
        value is Some && text::number(utf8::encode_utf8(value->0), u64::MAX) is None
            ==> policy::bounded(value, low, high, default) == default,
        value is Some && text::number(utf8::encode_utf8(value->0), u64::MAX) is Some ==> {
            let asked = text::number(utf8::encode_utf8(value->0), u64::MAX)->0;
            let got = policy::bounded(value, low, high, default);
            &&& low <= asked <= high ==> got == asked
            &&& asked < low ==> got == low
            &&& asked > high ==> got == high
        },
{
}

/// The Receive Maximum is never 0, and it and the largest topic alias are the 16-bit numbers that
/// the settings name, or else 1024 and 32.
pub proof fn law_limits_of_sixteen_bits(value: Option<Seq<char>>)
    ensures
        policy::receive_maximum_of(value) > 0,
        value is None ==> policy::receive_maximum_of(value) == 1024
            && policy::topic_alias_maximum_of(value) == 32,
        value is Some ==> match text::number(utf8::encode_utf8(value->0), 65535) {
            Some(v) => policy::topic_alias_maximum_of(value) == v && (v > 0
                ==> policy::receive_maximum_of(value) == v) && (v == 0
                ==> policy::receive_maximum_of(value) == 1024),
            None => policy::receive_maximum_of(value) == 1024 && policy::topic_alias_maximum_of(
                value,
            ) == 32,
        },
{
}

/// The sample rate is less than twice what was asked for.
pub proof fn law_sample_rate_is_the_next_power(v: u64, p: u64)
    requires
        1 <= v <= 65536,
        policy::is_sample_rate(p),
        p < 2 * v,
    ensures
        policy::is_sample_rate(policy::power_of_two_from(v, p)),
        v <= policy::power_of_two_from(v, p) < 2 * v,
    decreases 65536 - p,
{
    if p < v && p <= 32768 {
        law_sample_rate_is_the_next_power(v, (p * 2) as u64);
    }
}

} // verus!
