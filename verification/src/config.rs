//! Who may connect, and which topics they may read and write.

use vstd::prelude::*;
use vstd::utf8;
use crate::policy;
use crate::policy::bounded_setting;
use crate::text;
use crate::text::{normalized, spells, str_eq};
use crate::topic;
use crate::topic::topic_matches_acl_filter;
use argon2::PasswordVerifier;

verus! {

/// A rule of a user: access to the topics that a filter matches.
#[derive(Debug, Clone)]
pub struct AclRule {
    /// The topic filter.
    pub topic: String,
    /// `read`, `write` or `readwrite`.
    pub access: String,
}

/// A user.
#[derive(Debug, Clone)]
pub struct UserConfig {
    /// The name.
    pub username: String,
    /// The password, as an encoded Argon2 hash.
    pub password_hash: String,
    /// What the user may do.
    pub acl: Vec<AclRule>,
}

/// The users of a broker, as a credentials file lists them.
#[derive(Debug, Clone)]
pub struct CredentialsConfig {
    /// The users.
    pub users: Vec<UserConfig>,
}

/// The content of a rule.
#[verifier::ext_equal]
pub struct RuleView {
    /// The topic filter.
    pub topic: Seq<char>,
    /// The kind of access.
    pub access: Seq<char>,
}

/// The content of a user.
#[verifier::ext_equal]
pub struct UserView {
    /// The name.
    pub username: Seq<char>,
    /// The encoded hash of the password.
    pub password_hash: Seq<char>,
    /// What the user may do.
    pub acl: Seq<RuleView>,
}

impl View for AclRule {
    type V = RuleView;

    open spec fn view(&self) -> RuleView {
        RuleView { topic: self.topic@, access: self.access@ }
    }
}

impl View for UserConfig {
    type V = UserView;

    open spec fn view(&self) -> UserView {
        UserView {
            username: self.username@,
            password_hash: self.password_hash@,
            acl: Seq::new(self.acl@.len(), |i: int| self.acl@[i]@),
        }
    }
}

/// The content of a list of users.
pub open spec fn users_view(users: Seq<UserConfig>) -> Seq<UserView> {
    Seq::new(users.len(), |i: int| users[i]@)
}

/// The user of a name: the last that is listed under it.
pub open spec fn user_named(users: Seq<UserView>, name: Seq<char>) -> Option<UserView>
    decreases users.len(),
{
    if users.len() == 0 {
        None
    } else if users.last().username == name {
        Some(users.last())
    } else {
        user_named(users.drop_last(), name)
    }
}

impl RuleView {
    /// Whether the rule is about an action at all.
    pub open spec fn grants(self, action: Seq<char>) -> bool {
        self.access == "readwrite"@ || (self.access == "read"@ && action == "read"@) || (self.access
            == "write"@ && action == "write"@)
    }

    /// Whether the rule allows an action on a topic.
    pub open spec fn allows(self, topic: Seq<char>, action: Seq<char>) -> bool {
        self.grants(action) && topic::levels_match(
            topic::levels(utf8::encode_utf8(topic)),
            topic::levels(utf8::encode_utf8(self.topic)),
        )
    }

    /// Whether the rule allows an action on every topic.
    pub open spec fn allows_all(self, action: Seq<char>) -> bool {
        self.grants(action) && self.topic == "#"@
    }
}

impl UserView {
    /// Whether one of the rules allows an action on a topic.
    pub open spec fn may(self, topic: Seq<char>, action: Seq<char>) -> bool {
        exists|i: int| 0 <= i < self.acl.len() && #[trigger] self.acl[i].allows(topic, action)
    }

    /// Whether one of the rules allows an action on every topic.
    pub open spec fn may_always(self, action: Seq<char>) -> bool {
        exists|i: int| 0 <= i < self.acl.len() && #[trigger] self.acl[i].allows_all(action)
    }
}

/// The users, where authentication is enforced; nothing where anonymous access was enabled.
pub type AuthView = Option<Seq<UserView>>;

/// Whether a user may take an action on a topic.
pub open spec fn authorized(
    auth: AuthView,
    name: Seq<char>,
    topic: Seq<char>,
    action: Seq<char>,
) -> bool {
    match auth {
        None => true,
        Some(users) => match user_named(users, name) {
            None => false,
            Some(user) => user.may(topic, action),
        },
    }
}

/// Whether a rule lets a user take an action on every topic.
pub open spec fn authorized_for_all(auth: AuthView, name: Seq<char>, action: Seq<char>) -> bool {
    match auth {
        None => true,
        Some(users) => match user_named(users, name) {
            None => false,
            Some(user) => user.may_always(action),
        },
    }
}

/// Whether a user is admitted, given whether the password fits the hash of the user of that name.
pub open spec fn admitted(auth: AuthView, name: Seq<char>, verified: bool) -> bool {
    match auth {
        None => true,
        Some(users) => user_named(users, name) is Some && verified,
    }
}

/// Whether nine digits follow `p=` at a place of an encoded hash.
pub open spec fn many_lanes_at(s: Seq<u8>, i: int) -> bool {
    &&& 0 <= i && i + 11 <= s.len()
    &&& s[i] == 0x70 && s[i + 1] == 0x3D
    &&& forall|k: int| i + 2 <= k < i + 11 ==> 0x30 <= #[trigger] s[k] <= 0x39
}

/// Whether an encoded hash asks for a number of lanes of at most eight digits, wherever it does.
pub open spec fn lanes_fit(encoded_hash: Seq<char>) -> bool {
    let s = utf8::encode_utf8(encoded_hash);
    forall|i: int| 0 <= i < s.len() ==> !#[trigger] many_lanes_at(s, i)
}

/// Whether nine digits follow `p=` at a place of an encoded hash.
fn has_many_lanes_at(s: &[u8], i: usize) -> (r: bool)
    requires
        i < s@.len(),
    ensures
        r == many_lanes_at(s@, i as int),
{
    if s.len() - i < 11 || s[i] != 0x70 || s[i + 1] != 0x3D {
        return false;
    }
    let end: usize = i + 11;
    let mut k: usize = i + 2;
    while k < end
        invariant
            end == i + 11,
            i + 2 <= k <= end <= s@.len(),
            forall|j: int| i + 2 <= j < k ==> 0x30 <= #[trigger] s@[j] <= 0x39,
        decreases end - k,
    {
        if s[k] < 0x30 || s[k] > 0x39 {
            return false;
        }
        k = k + 1;
    }
    true
}

/// Whether an encoded hash asks for a number of lanes of at most eight digits.
fn has_few_lanes(encoded_hash: &str) -> (r: bool)
    ensures
        r == lanes_fit(encoded_hash@),
{
    let s = encoded_hash.as_bytes();
    let mut i: usize = 0;
    while i < s.len()
        invariant
            i <= s@.len(),
            s@ == utf8::encode_utf8(encoded_hash@),
            forall|k: int| 0 <= k < i ==> !#[trigger] many_lanes_at(s@, k),
        decreases s@.len() - i,
    {
        if has_many_lanes_at(s, i) {
            return false;
        }
        i = i + 1;
    }
    true
}

/// Whether Argon2 finds that a password fits an encoded hash.
pub uninterp spec fn password_fits(password: Seq<char>, encoded_hash: Seq<char>) -> bool;

/// Calls `argon2::PasswordHash::new` and, on what it parses,
/// `argon2::Argon2::default().verify_password`. The result is true where the hash can be parsed
/// and the hash of the password, computed with the algorithm, version, parameters and salt that
/// the encoded hash names, equals the hash in it. It depends on the two texts alone. Of the number
/// of lanes it computes the eightfold in 32 bits before it compares it with its limit of 2^24 - 1,
/// which is why the number must not be longer than eight digits. It takes as much memory as the
/// encoded hash asks for.
#[verifier::external_body]
fn argon2_verify(password: &str, encoded_hash: &str) -> (r: bool)
    requires
        lanes_fit(encoded_hash@),
    ensures
        r == password_fits(password@, encoded_hash@),
{
    match argon2::PasswordHash::new(encoded_hash) {
        Ok(parsed) => argon2::Argon2::default().verify_password(
            password.as_bytes(),
            &parsed,
        ).is_ok(),
        Err(_) => false,
    }
}

/// Whether a password is verified by an encoded Argon2 hash: it fits, and the hash asks for no
/// more lanes than there can be.
pub open spec fn verifies(password: Seq<char>, encoded_hash: Seq<char>) -> bool {
    lanes_fit(encoded_hash) && password_fits(password, encoded_hash)
}

/// Whether a password fits an encoded Argon2 hash; not where the hash cannot be parsed, or asks
/// for more lanes than there can be.
pub fn verify_password(password: &str, encoded_hash: &str) -> (r: bool)
    ensures
        r == (lanes_fit(encoded_hash@) && password_fits(password@, encoded_hash@)),
{
    has_few_lanes(encoded_hash) && argon2_verify(password, encoded_hash)
}

/// How a credentials file was found.
#[derive(Debug, Clone)]
pub enum CredentialsSource {
    /// There is no such file.
    Missing,
    /// The file could not be opened or read.
    Unreadable,
    /// The file is not a list of users.
    Malformed,
    /// The file lists these users.
    Loaded(CredentialsConfig),
}

/// The users for a credentials file: those that it lists; without a file nothing where anonymous
/// access was enabled; in every other case there are none.
pub open spec fn loaded(source: CredentialsSource, allow_anonymous: bool) -> AuthView {
    match source {
        CredentialsSource::Loaded(config) => Some(users_view(config.users@)),
        CredentialsSource::Missing => if allow_anonymous {
            None
        } else {
            Some(Seq::<UserView>::empty())
        },
        _ => Some(Seq::<UserView>::empty()),
    }
}

/// Authentication and access control.
pub struct AuthConfig {
    users: Option<Vec<UserConfig>>,
}

impl View for AuthConfig {
    type V = AuthView;

    closed spec fn view(&self) -> AuthView {
        match self.users {
            None => None,
            Some(users) => Some(users_view(users@)),
        }
    }
}

impl AuthConfig {
    /// Enforces authentication against a list of users, or allows anonymous access.
    pub fn with_users(users: Option<Vec<UserConfig>>) -> (r: Self)
        ensures
            r@ == (match users {
                None => None::<Seq<UserView>>,
                Some(list) => Some(users_view(list@)),
            }),
    {
        AuthConfig { users }
    }

    /// Rejects everybody.
    pub fn closed() -> (r: Self)
        ensures
            r@ == Some(Seq::<UserView>::empty()),
    {
        let r = AuthConfig { users: Some(Vec::new()) };
        assert(r@->0 =~= Seq::<UserView>::empty());
        r
    }

    /// Lets everybody do everything.
    pub fn anonymous() -> (r: Self)
        ensures
            r@ == None::<Seq<UserView>>,
    {
        AuthConfig { users: None }
    }

    /// The configuration for a credentials file: the users that it lists; without a file,
    /// anonymous access where that was enabled; in every other case nobody is admitted.
    pub fn load(source: CredentialsSource, allow_anonymous: bool) -> (r: Self)
        ensures
            r@ == loaded(source, allow_anonymous),
    {
        match source {
            CredentialsSource::Loaded(config) => AuthConfig::with_users(Some(config.users)),
            CredentialsSource::Missing => if allow_anonymous {
                AuthConfig::anonymous()
            } else {
                AuthConfig::closed()
            },
            CredentialsSource::Unreadable => AuthConfig::closed(),
            CredentialsSource::Malformed => AuthConfig::closed(),
        }
    }

    /// The user of a name.
    fn find(users: &Vec<UserConfig>, username: &str) -> (r: Option<usize>)
        ensures
            match r {
                Some(i) => i < users@.len() && user_named(users_view(users@), username@) == Some(
                    users@[i as int]@,
                ),
                None => user_named(users_view(users@), username@) is None,
            },
    {
        let ghost all = users_view(users@);
        let mut n: usize = users.len();
        assert(all.take(n as int) =~= all);
        while n > 0
            invariant
                n <= users@.len(),
                all == users_view(users@),
                user_named(all, username@) == user_named(all.take(n as int), username@),
            decreases n,
        {
            let ghost part = all.take(n as int);
            assert(part.drop_last() =~= all.take(n - 1));
            n = n - 1;
            if str_eq(users[n].username.as_str(), username) {
                return Some(n);
            }
        }
        None
    }

    /// The encoded password hash of a user, where authentication is enforced and there is such
    /// a user.
    pub fn password_hash(&self, username: &str) -> (r: Option<&str>)
        ensures
            match r {
                Some(hash) => self@ is Some && user_named(self@->0, username@) is Some && hash@
                    == user_named(self@->0, username@)->0.password_hash,
                None => self@ is None || user_named(self@->0, username@) is None,
            },
    {
        match &self.users {
            None => None,
            Some(users) => match AuthConfig::find(users, username) {
                Some(i) => Some(users[i].password_hash.as_str()),
                None => None,
            },
        }
    }

    /// Whether a user is admitted, given whether the password fits their hash.
    pub fn admits(&self, username: &str, verified: bool) -> (r: bool)
        ensures
            r == admitted(self@, username@, verified),
    {
        match &self.users {
            None => true,
            Some(users) => match AuthConfig::find(users, username) {
                Some(_) => verified,
                None => false,
            },
        }
    }

    /// Whether a user with a password is admitted: everybody, where anonymous access was
    /// enabled, and else a user who is listed with a hash that the password fits.
    pub fn authenticate(&self, username: &str, password: &str) -> (r: bool)
        ensures
            r == (match self@ {
                None => true,
                Some(users) => match user_named(users, username@) {
                    None => false,
                    Some(user) => verifies(password@, user.password_hash),
                },
            }),
    {
        let verified = match self.password_hash(username) {
            Some(hash) => verify_password(password, hash),
            None => false,
        };
        self.admits(username, verified)
    }

    /// Whether a rule is about an action.
    fn rule_grants(rule: &AclRule, action: &str) -> (r: bool)
        ensures
            r == rule@.grants(action@),
    {
        let access = rule.access.as_str();
        if str_eq(access, "readwrite") {
            true
        } else if str_eq(access, "read") && str_eq(action, "read") {
            true
        } else {
            str_eq(access, "write") && str_eq(action, "write")
        }
    }

    /// Whether a user may take an action, `read` or `write`, on a topic.
    pub fn authorize(&self, username: &str, topic: &str, action: &str) -> (r: bool)
        ensures
            r == authorized(self@, username@, topic@, action@),
    {
        match &self.users {
            None => true,
            Some(users) => match AuthConfig::find(users, username) {
                None => false,
                Some(u) => {
                    let acl = &users[u].acl;
                    let ghost user = users@[u as int]@;
                    let mut i: usize = 0;
                    while i < acl.len()
                        invariant
                            i <= acl@.len(),
                            user.acl.len() == acl@.len(),
                            forall|k: int| 0 <= k < acl@.len() ==> user.acl[k] == #[trigger] acl@[k]@,
                            forall|k: int|
                                0 <= k < i ==> !#[trigger] user.acl[k].allows(topic@, action@),
                            self@ is Some,
                            user_named(self@->0, username@) == Some(user),
                        decreases acl@.len() - i,
                    {
                        let rule = &acl[i];
                        assert(user.acl[i as int] == rule@);
                        if AuthConfig::rule_grants(rule, action) && topic_matches_acl_filter(
                            topic,
                            rule.topic.as_str(),
                        ) {
                            assert(user.acl[i as int].allows(topic@, action@));
                            assert(user.may(topic@, action@));
                            return true;
                        }
                        i = i + 1;
                    }
                    false
                },
            },
        }
    }

    /// Whether a rule lets a user take an action on every topic.
    pub fn authorizes_all(&self, username: &str, action: &str) -> (r: bool)
        ensures
            r == authorized_for_all(self@, username@, action@),
    {
        match &self.users {
            None => true,
            Some(users) => match AuthConfig::find(users, username) {
                None => false,
                Some(u) => {
                    let acl = &users[u].acl;
                    let ghost user = users@[u as int]@;
                    let mut i: usize = 0;
                    while i < acl.len()
                        invariant
                            i <= acl@.len(),
                            user.acl.len() == acl@.len(),
                            forall|k: int| 0 <= k < acl@.len() ==> user.acl[k] == #[trigger] acl@[k]@,
                            forall|k: int|
                                0 <= k < i ==> !#[trigger] user.acl[k].allows_all(action@),
                            self@ is Some,
                            user_named(self@->0, username@) == Some(user),
                        decreases acl@.len() - i,
                    {
                        let rule = &acl[i];
                        assert(user.acl[i as int] == rule@);
                        if AuthConfig::rule_grants(rule, action) && str_eq(
                            rule.topic.as_str(),
                            "#",
                        ) {
                            assert(user.acl[i as int].allows_all(action@));
                            assert(user.may_always(action@));
                            return true;
                        }
                        i = i + 1;
                    }
                    false
                },
            },
        }
    }
}

/// How many passwords may be verified at a time, from a setting.
pub fn max_auth_concurrency(value: Option<&str>) -> (r: u64)
    ensures
        r == policy::bounded(policy::setting_opt(value), 1, 64, 4),
{
    bounded_setting(value, 1, 64, 4)
}

/// Whether a setting enables anonymous access: only `true` does, in any case and with blanks
/// around it.
pub open spec fn enables_anonymous(value: Option<Seq<char>>) -> bool {
    match value {
        None => false,
        Some(v) => text::setting(v) == "true"@,
    }
}

/// Whether a setting enables anonymous access.
pub fn anonymous_access_enabled(value: Option<&str>) -> (r: bool)
    ensures
        r == enables_anonymous(policy::setting_opt(value)),
{
    match value {
        None => false,
        Some(v) => {
            let s = normalized(v);
            spells(&s, "true")
        },
    }
}

/// Without a list of users that could be read, nobody is admitted and nothing is allowed, unless
/// there is no credentials file and the setting for anonymous access is `true`.
pub proof fn law_fails_closed(
    source: CredentialsSource,
    setting: Option<Seq<char>>,
    name: Seq<char>,
    topic: Seq<char>,
    action: Seq<char>,
    verified: bool,
)
    requires
        !(source is Loaded),
        source is Missing ==> (setting matches Some(v) ==> text::setting(v) != "true"@),
    ensures
        ({
            let auth = loaded(source, enables_anonymous(setting));
            &&& !admitted(auth, name, verified)
            &&& !authorized(auth, name, topic, action)
            &&& !authorized_for_all(auth, name, action)
        }),
{
}

/// A user who may take an action on all topics may take it on any.
pub proof fn law_all_topics_cover_each(
    auth: AuthView,
    name: Seq<char>,
    topic: Seq<char>,
    action: Seq<char>,
)
    requires
        authorized_for_all(auth, name, action),
    ensures
        authorized(auth, name, topic, action),
{
    if let Some(users) = auth {
        let user = user_named(users, name)->0;
        let i = choose|i: int|
            0 <= i < user.acl.len() && #[trigger] user.acl[i].allows_all(action);
        reveal_strlit("#");
        let filter = utf8::encode_utf8(user.acl[i].topic);
        assert("#"@ =~= seq!['#']);
        assert(utf8::is_ascii_chars("#"@));
        utf8::is_ascii_chars_encode_utf8("#"@);
        assert(filter =~= seq![35u8]);
        assert(topic::levels(filter) =~= seq![topic::hash()]) by {
            reveal_with_fuel(topic::levels, 3);
        }
        assert(user.acl[i].allows(topic, action));
    }
}

/// Every user who is admitted where authentication is enforced is listed.
pub proof fn law_only_listed_users_are_admitted(
    users: Seq<UserView>,
    name: Seq<char>,
    verified: bool,
)
    requires
        admitted(Some(users), name, verified),
    ensures
        verified,
        exists|i: int| 0 <= i < users.len() && #[trigger] users[i].username == name,
    decreases users.len(),
{
    if users.last().username == name {
        assert(users[users.len() - 1].username == name);
    } else {
        law_only_listed_users_are_admitted(users.drop_last(), name, verified);
        let i = choose|i: int|
            0 <= i < users.drop_last().len() && #[trigger] users.drop_last()[i].username == name;
        assert(users[i].username == name);
    }
}

} // verus!
