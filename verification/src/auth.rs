//! Who is asking: the bot, which presents the shared token, or a user of the
//! web application, who presents login data signed with a key derived from
//! that token.
use crate::schemas::check_if_user_is_in_group;
use crate::schemas::is_participant;
use crate::schemas::Group;
use crate::schemas::UserNick;
use hmac::Hmac;
use hmac::Mac;
use sha2::Digest;
use sha2::Sha256;
use vstd::prelude::*;
use vstd::string::StringExecFns;
use vstd::string::StringExecFnsIsAscii;
use vstd::utf8::encode_utf8;
use vstd::utf8::is_ascii_chars;
use vstd::utf8::is_ascii_chars_encode_utf8;

verus! {

/// What a caller is allowed to see.
#[derive(Debug, PartialEq)]
pub enum AuthorizationLevel {
    /// The bot: unrestricted.
    Bot,
    /// The web application on behalf of one participant: restricted to them.
    Frontend(UserNick),
}

/// The mathematical value of an [`AuthorizationLevel`].
pub enum AuthorizationLevelView {
    Bot,
    Frontend(Seq<char>),
}

impl View for AuthorizationLevel {
    type V = AuthorizationLevelView;

    open spec fn view(&self) -> AuthorizationLevelView {
        match self {
            AuthorizationLevel::Bot => AuthorizationLevelView::Bot,
            AuthorizationLevel::Frontend(nick) => AuthorizationLevelView::Frontend(nick@),
        }
    }
}

/// The login data that the web application presents, as signed by Telegram.
#[derive(Debug, Clone)]
pub struct TelegramAuthData {
    pub auth_date: String,
    pub first_name: Option<String>,
    pub last_name: Option<String>,
    pub id: String,
    pub photo_url: Option<String>,
    pub username: String,
    pub hash: String,
}

/// The text of an optional field.
pub open spec fn text_of(field: Option<String>) -> Option<Seq<char>> {
    match field {
        Some(text) => Some(text@),
        None => None,
    }
}

/// One line of the signed text: the field's name with its `=`, and its value.
pub open spec fn line(label: Seq<char>, value: Seq<char>) -> Seq<char> {
    label + value
}

/// A line of the signed text that follows another, if the field is present.
pub open spec fn further_line(label: Seq<char>, value: Option<Seq<char>>) -> Seq<char> {
    match value {
        Some(value) => "\n"@ + label + value,
        None => Seq::empty(),
    }
}

impl TelegramAuthData {
    /// The text that the signature is computed over: one line `name=value`
    /// for every field that is present but the signature itself, the fields
    /// in alphabetical order, the lines separated by line feeds.
    pub open spec fn data_check_string(self) -> Seq<char> {
        line("auth_date="@, self.auth_date@) + further_line(
            "first_name="@,
            text_of(self.first_name),
        ) + further_line("id="@, Some(self.id@)) + further_line(
            "last_name="@,
            text_of(self.last_name),
        ) + further_line("photo_url="@, text_of(self.photo_url)) + further_line(
            "username="@,
            Some(self.username@),
        )
    }
}

/// The SHA-256 digest of `data`.
pub uninterp spec fn sha256_digest(data: Seq<u8>) -> Seq<u8>;

/// The HMAC-SHA256 authentication code of `message` under `key`.
pub uninterp spec fn hmac_sha256_code(key: Seq<u8>, message: Seq<u8>) -> Seq<u8>;

/// The signature that login data must carry to be genuine: the HMAC-SHA256
/// code of its signed text under the SHA-256 digest of the bot's token.
pub open spec fn expected_hash(data: TelegramAuthData, bot_token: Seq<char>) -> Seq<u8> {
    hmac_sha256_code(sha256_digest(encode_utf8(bot_token)), encode_utf8(data.data_check_string()))
}

/// Calls `Sha256::digest` of the `sha2` crate. Claimed of it: the result is
/// the SHA-256 digest of `data`, a function of `data` alone, and 32 bytes
/// long, the output size that the crate fixes for `Sha256`.
#[verifier::external_body]
fn sha256(data: &[u8]) -> (digest: Vec<u8>)
    ensures
        digest@ == sha256_digest(data@),
        digest@.len() == 32,
{
    Sha256::digest(data).to_vec()
}

/// Computes a code with `Hmac<Sha256>` of the `hmac` crate: the key goes to
/// `Mac::new_from_slice`, which for HMAC takes a key of any length and never
/// fails, the message to `Mac::update`, and `Mac::finalize` with
/// `CtOutput::into_bytes` gives the code. Claimed of it: the result is the
/// HMAC-SHA256 code of `message` under `key`, a function of the two alone,
/// and 32 bytes long, the output size that `Hmac` takes over from `Sha256`.
#[verifier::external_body]
fn hmac_sha256(key: &[u8], message: &[u8]) -> (code: Vec<u8>)
    ensures
        code@ == hmac_sha256_code(key@, message@),
        code@.len() == 32,
{
    let mut mac = Hmac::<Sha256>::new_from_slice(key).expect("HMAC takes a key of any length");
    mac.update(message);
    mac.finalize().into_bytes().to_vec()
}

/// Appends a line for `value` to `text`, after a line feed, if there is one.
fn append_further_line(text: &mut String, label: &str, value: &Option<String>)
    ensures
        final(text)@ == old(text)@ + further_line(label@, text_of(*value)),
{
    match value {
        Some(value) => {
            let ghost before = text@;
            text.append("\n");
            text.append(label);
            text.append(value.as_str());
            assert(text@ =~= before + ("\n"@ + label@ + value@));
        },
        None => {
            assert(text@ =~= text@ + Seq::<char>::empty());
        },
    }
}

/// Appends a line for the mandatory `value` to `text`, after a line feed.
fn append_line(text: &mut String, label: &str, value: &String)
    ensures
        final(text)@ == old(text)@ + further_line(label@, Some(value@)),
{
    let ghost before = text@;
    text.append("\n");
    text.append(label);
    text.append(value.as_str());
    assert(text@ =~= before + ("\n"@ + label@ + value@));
}

/// Computes the signature that `auth_data` must carry to be genuine: 32
/// bytes.
pub fn compute_hash(auth_data: &TelegramAuthData, bot_token: &String) -> (hash: Vec<u8>)
    ensures
        hash@ == expected_hash(*auth_data, bot_token@),
        hash@.len() == 32,
{
    let mut hash_content = String::new();
    hash_content.append("auth_date=");
    hash_content.append(auth_data.auth_date.as_str());
    assert(hash_content@ =~= line("auth_date="@, auth_data.auth_date@));
    append_further_line(&mut hash_content, "first_name=", &auth_data.first_name);
    append_line(&mut hash_content, "id=", &auth_data.id);
    append_further_line(&mut hash_content, "last_name=", &auth_data.last_name);
    append_further_line(&mut hash_content, "photo_url=", &auth_data.photo_url);
    append_line(&mut hash_content, "username=", &auth_data.username);
    let bot_hash = sha256(bot_token.as_str().as_bytes());
    hmac_sha256(bot_hash.as_slice(), hash_content.as_str().as_bytes())
}

/// The value of a hexadecimal digit, in either case.
pub open spec fn hex_digit(c: char) -> Option<int> {
    if '0' <= c <= '9' {
        Some(c as int - '0' as int)
    } else if 'a' <= c <= 'f' {
        Some(c as int - 'a' as int + 10)
    } else if 'A' <= c <= 'F' {
        Some(c as int - 'A' as int + 10)
    } else {
        None
    }
}

/// The byte that one or two characters write in hexadecimal, as the standard
/// library reads an unsigned number: digits in either case, before which a
/// plus sign may stand if a digit follows.
pub open spec fn hex_byte(chunk: Seq<char>) -> Option<int> {
    if chunk.len() == 1 {
        hex_digit(chunk[0])
    } else if chunk.len() == 2 {
        match (
            if chunk[0] == '+' {
                Some(0int)
            } else {
                hex_digit(chunk[0])
            },
            hex_digit(chunk[1]),
        ) {
            (Some(high), Some(low)) => Some(16 * high + low),
            _ => None,
        }
    } else {
        None
    }
}

/// The bytes that `text` writes in hexadecimal, two characters to the byte
/// and the last byte from one character where their number is odd; nothing
/// where any byte is not well written.
pub open spec fn hex_bytes(text: Seq<char>) -> Option<Seq<u8>>
    decreases text.len(),
{
    if text.len() == 0 {
        Some(Seq::empty())
    } else {
        let width: int = if text.len() >= 2 {
            2
        } else {
            1
        };
        match (hex_byte(text.take(width)), hex_bytes(text.skip(width))) {
            (Some(byte), Some(rest)) => Some(seq![byte as u8] + rest),
            _ => None,
        }
    }
}

/// Only ASCII text writes bytes in hexadecimal.
pub proof fn lemma_hex_bytes_ascii(text: Seq<char>)
    requires
        hex_bytes(text) is Some,
    ensures
        is_ascii_chars(text),
    decreases text.len(),
{
    if text.len() > 0 {
        let width: int = if text.len() >= 2 {
            2
        } else {
            1
        };
        let chunk = text.take(width);
        let rest = text.skip(width);
        lemma_hex_bytes_ascii(rest);
        assert forall|i: int| 0 <= i < text.len() implies '\0' <= #[trigger] text[i] <= '\u{7f}' by {
            if i < width {
                assert(chunk[i] == text[i]);
            } else {
                assert(rest[i - width] == text[i]);
            }
        }
    }
}

/// The value of the hexadecimal digit whose ASCII code is `code`.
fn hex_value(code: u8) -> (value: Option<u8>)
    ensures
        match value {
            Some(v) => hex_digit(code as char) == Some(v as int),
            None => hex_digit(code as char) is None,
        },
{
    if code >= 48 && code <= 57 {
        Some(code - 48)
    } else if code >= 97 && code <= 102 {
        Some(code - 87)
    } else if code >= 65 && code <= 70 {
        Some(code - 55)
    } else {
        None
    }
}

/// Reads the bytes that `text` writes in hexadecimal.
pub fn decode_hex(text: &String) -> (bytes: Option<Vec<u8>>)
    ensures
        match bytes {
            Some(bytes) => hex_bytes(text@) == Some(bytes@),
            None => hex_bytes(text@) is None,
        },
{
    if !text.is_ascii() {
        proof {
            if hex_bytes(text@) is Some {
                lemma_hex_bytes_ascii(text@);
            }
        }
        return None;
    }
    let codes = text.as_str().as_bytes();
    proof {
        is_ascii_chars_encode_utf8(text@);
    }
    let mut bytes: Vec<u8> = Vec::new();
    let mut i: usize = 0;
    assert(text@.skip(0) =~= text@);
    while i < codes.len()
        invariant
            i <= codes.len(),
            codes@.len() == text@.len(),
            forall|k: int| 0 <= k < text@.len() ==> (#[trigger] text@[k]) as u8 == codes@[k],
            is_ascii_chars(text@),
            hex_bytes(text@) == match hex_bytes(text@.skip(i as int)) {
                Some(rest) => Some(bytes@ + rest),
                None => None,
            },
        decreases codes.len() - i,
    {
        let ghost rest = text@.skip(i as int);
        let ghost done = bytes@;
        if codes.len() - i >= 2 {
            let high = if codes[i] == 43 {
                Some(0u8)
            } else {
                hex_value(codes[i])
            };
            let low = hex_value(codes[i + 1]);
            proof {
                assert(rest.take(2)[0] == text@[i as int]);
                assert(rest.take(2)[1] == text@[i + 1]);
                assert(text@[i as int] as u8 == codes@[i as int]);
                assert(text@[i + 1] as u8 == codes@[i + 1]);
                assert(rest.skip(2) =~= text@.skip(i + 2));
            }
            match (high, low) {
                (Some(h), Some(l)) => {
                    bytes.push(16 * h + l);
                    proof {
                        let tail = hex_bytes(text@.skip(i + 2));
                        if tail is Some {
                            assert(done + (seq![(16 * h + l) as u8] + tail->0) =~= bytes@
                                + tail->0);
                        }
                    }
                },
                _ => {
                    return None;
                },
            }
            i = i + 2;
        } else {
            let only = hex_value(codes[i]);
            proof {
                assert(rest.take(1)[0] == text@[i as int]);
                assert(text@[i as int] as u8 == codes@[i as int]);
                assert(rest.skip(1) =~= text@.skip(i + 1));
            }
            match only {
                Some(v) => {
                    bytes.push(v);
                    proof {
                        let tail = hex_bytes(text@.skip(i + 1));
                        if tail is Some {
                            assert(done + (seq![v] + tail->0) =~= bytes@ + tail->0);
                        }
                    }
                },
                None => {
                    return None;
                },
            }
            i = i + 1;
        }
    }
    proof {
        assert(bytes@ + Seq::<u8>::empty() =~= bytes@);
    }
    Some(bytes)
}

/// Whether two byte strings are the same.
fn same_bytes(a: &Vec<u8>, b: &Vec<u8>) -> (same: bool)
    ensures
        same == (a@ == b@),
{
    if a.len() != b.len() {
        return false;
    }
    let mut i: usize = 0;
    while i < a.len()
        invariant
            i <= a.len(),
            a.len() == b.len(),
            forall|k: int| 0 <= k < i ==> a[k] == b[k],
        decreases a.len() - i,
    {
        if a[i] != b[i] {
            return false;
        }
        i = i + 1;
    }
    assert(a@ =~= b@);
    true
}

/// What login data entitle to, given the signature computed for them: the
/// participant they name where the signature they carry, read from
/// hexadecimal, is the computed one, and nothing otherwise.
pub open spec fn login_level(data: TelegramAuthData, computed_hash: Seq<u8>) -> Option<
    AuthorizationLevelView,
> {
    if hex_bytes(data.hash@) == Some(computed_hash) {
        Some(AuthorizationLevelView::Frontend(data.username@))
    } else {
        None
    }
}

/// What a request is entitled to. Whoever presents the bot's token is the
/// bot. So is whoever presents anything that is not login data. Login data
/// entitle to what [`login_level`] says, given the signature that they must
/// carry.
pub open spec fn authorization_level(
    authorization: Seq<char>,
    bot_token: Seq<char>,
    auth_data: Option<TelegramAuthData>,
) -> Option<AuthorizationLevelView> {
    if authorization == bot_token {
        Some(AuthorizationLevelView::Bot)
    } else {
        match auth_data {
            None => Some(AuthorizationLevelView::Bot),
            Some(data) => login_level(data, expected_hash(data, bot_token)),
        }
    }
}

/// The mathematical value of an optional [`AuthorizationLevel`].
pub open spec fn level_view(level: Option<AuthorizationLevel>) -> Option<AuthorizationLevelView> {
    match level {
        Some(level) => Some(level@),
        None => None,
    }
}

/// Decides what login data entitle to, given the signature computed for
/// them.
pub fn check_login(auth_data: TelegramAuthData, computed_hash: &Vec<u8>) -> (level: Option<
    AuthorizationLevel,
>)
    ensures
        level_view(level) == login_level(auth_data, computed_hash@),
{
    match decode_hex(&auth_data.hash) {
        None => None,
        Some(hash) => {
            if same_bytes(computed_hash, &hash) {
                Some(AuthorizationLevel::Frontend(auth_data.username))
            } else {
                None
            }
        },
    }
}

/// Decides what a request is entitled to, from the text of its
/// authorization header, the bot's token, and the login data that the
/// header holds, if it holds any.
pub fn check_authorization_level(
    authorization: &String,
    bot_token: &String,
    auth_data: Option<TelegramAuthData>,
) -> (level: Option<AuthorizationLevel>)
    ensures
        level_view(level) == authorization_level(authorization@, bot_token@, auth_data),
{
    if *authorization == *bot_token {
        return Some(AuthorizationLevel::Bot);
    }
    match auth_data {
        None => Some(AuthorizationLevel::Bot),
        Some(auth_data) => {
            let computed_hash = compute_hash(&auth_data, bot_token);
            check_login(auth_data, &computed_hash)
        },
    }
}

/// What becomes of a request.
#[derive(Debug, PartialEq, Eq, Clone, Copy, Structural)]
pub enum Access {
    /// The request is served.
    Granted,
    /// The request is turned down: its authorization entitles to nothing.
    Malformed,
    /// The request is turned down: its authorization does not reach so far.
    Denied,
}

/// Whether a request may see what belongs to the participants of whom
/// `member` holds: the bot may see anything, a participant what belongs to
/// them.
pub open spec fn access_to_group(level: Option<AuthorizationLevelView>, member: spec_fn(Seq<char>) -> bool) -> Access {
    match level {
        None => Access::Malformed,
        Some(AuthorizationLevelView::Bot) => Access::Granted,
        Some(AuthorizationLevelView::Frontend(nick)) => if member(nick) {
            Access::Granted
        } else {
            Access::Denied
        },
    }
}

/// Whether a request may change anything: only the bot may.
pub open spec fn access_to_change(level: Option<AuthorizationLevelView>) -> Access {
    match level {
        None => Access::Malformed,
        Some(AuthorizationLevelView::Bot) => Access::Granted,
        Some(AuthorizationLevelView::Frontend(_)) => Access::Denied,
    }
}

/// Decides whether a request with this authorization may see `group`.
pub fn group_access(level: &Option<AuthorizationLevel>, group: &Group) -> (access: Access)
    ensures
        access == access_to_group(
            level_view(*level),
            |nick: Seq<char>| is_participant(group@.expenses, nick),
        ),
{
    match level {
        None => Access::Malformed,
        Some(AuthorizationLevel::Bot) => Access::Granted,
        Some(AuthorizationLevel::Frontend(nick)) => {
            if check_if_user_is_in_group(nick, group) {
                Access::Granted
            } else {
                Access::Denied
            }
        },
    }
}

/// Decides whether a request with this authorization may see the standing
/// of `user`: the bot may see anybody's, a participant their own.
pub fn user_access(level: &Option<AuthorizationLevel>, user: &UserNick) -> (access: Access)
    ensures
        access == access_to_group(level_view(*level), |nick: Seq<char>| nick == user@),
{
    match level {
        None => Access::Malformed,
        Some(AuthorizationLevel::Bot) => Access::Granted,
        Some(AuthorizationLevel::Frontend(nick)) => {
            if *nick == *user {
                Access::Granted
            } else {
                Access::Denied
            }
        },
    }
}

/// Decides whether a request with this authorization may add a group or an
/// expense.
pub fn change_access(level: &Option<AuthorizationLevel>) -> (access: Access)
    ensures
        access == access_to_change(level_view(*level)),
{
    match level {
        None => Access::Malformed,
        Some(AuthorizationLevel::Bot) => Access::Granted,
        Some(AuthorizationLevel::Frontend(_)) => Access::Denied,
    }
}

} // verus!
