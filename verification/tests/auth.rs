use opensplit::auth::change_access;
use opensplit::auth::check_authorization_level;
use opensplit::auth::check_login;
use opensplit::auth::compute_hash;
use opensplit::auth::decode_hex;
use opensplit::auth::group_access;
use opensplit::auth::user_access;
use opensplit::auth::Access;
use opensplit::auth::AuthorizationLevel;
use opensplit::auth::TelegramAuthData;
use opensplit::schemas::Expense;
use opensplit::schemas::Group;

const TOKEN: &str = "123456:ABC-DEF1234ghIkl-zyx57W2v1u123ew11";
const FULL_HASH: &str = "6db1a009e0543f698cc625cad04b11708d73a6b357b58a4185f79b1252e7aa75";
const BARE_HASH: &str = "0b22351b6d098187cce08d620af417a081d15111e37d939bdbbef3686f71e420";

fn full(hash: &str) -> TelegramAuthData {
    TelegramAuthData {
        auth_date: "1700000000".to_string(),
        first_name: Some("Ada".to_string()),
        last_name: Some("Lovelace".to_string()),
        id: "42".to_string(),
        photo_url: Some("https://t.me/i/ada.jpg".to_string()),
        username: "ada".to_string(),
        hash: hash.to_string(),
    }
}

fn bare(hash: &str) -> TelegramAuthData {
    TelegramAuthData {
        auth_date: "1700000000".to_string(),
        first_name: None,
        last_name: None,
        id: "42".to_string(),
        photo_url: None,
        username: "ada".to_string(),
        hash: hash.to_string(),
    }
}

fn unhex(text: &str) -> Vec<u8> {
    (0..text.len()).step_by(2).map(|i| u8::from_str_radix(&text[i..i + 2], 16).unwrap()).collect()
}

fn levels(header: &str, data: Option<TelegramAuthData>) -> Option<AuthorizationLevel> {
    check_authorization_level(&header.to_string(), &TOKEN.to_string(), data)
}

#[test]
fn signature_covers_every_field_present() {
    assert_eq!(compute_hash(&full(""), &TOKEN.to_string()), unhex(FULL_HASH));
}

#[test]
fn signature_is_32_bytes_long() {
    assert_eq!(compute_hash(&full(""), &TOKEN.to_string()).len(), 32);
    assert_eq!(compute_hash(&bare(""), &String::new()).len(), 32);
}

#[test]
fn signature_skips_absent_fields() {
    assert_eq!(compute_hash(&bare(""), &TOKEN.to_string()), unhex(BARE_HASH));
}

#[test]
fn signature_is_computed_over_utf8() {
    let data = TelegramAuthData {
        auth_date: "1".to_string(),
        first_name: Some("Zoë".to_string()),
        last_name: None,
        id: "7".to_string(),
        photo_url: None,
        username: "zoe".to_string(),
        hash: String::new(),
    };
    assert_eq!(
        compute_hash(&data, &"tökén".to_string()),
        unhex("b179c3ab2b2dd63a75187c4d21bccd83e12a5ea95c2dda85e1d5342516d54b21")
    );
}

#[test]
fn signature_does_not_depend_on_the_hash_carried() {
    assert_eq!(
        compute_hash(&full("00"), &TOKEN.to_string()),
        compute_hash(&full(FULL_HASH), &TOKEN.to_string())
    );
}

#[test]
fn the_token_makes_the_bot() {
    assert_eq!(levels(TOKEN, None), Some(AuthorizationLevel::Bot));
    assert_eq!(levels(TOKEN, Some(full("zz"))), Some(AuthorizationLevel::Bot));
}

#[test]
fn anything_that_is_not_login_data_makes_the_bot() {
    assert_eq!(levels("not the token", None), Some(AuthorizationLevel::Bot));
    assert_eq!(levels("", None), Some(AuthorizationLevel::Bot));
}

#[test]
fn genuine_login_data_make_the_user() {
    assert_eq!(
        levels("{..}", Some(full(FULL_HASH))),
        Some(AuthorizationLevel::Frontend("ada".to_string()))
    );
    assert_eq!(
        levels("{..}", Some(bare(BARE_HASH))),
        Some(AuthorizationLevel::Frontend("ada".to_string()))
    );
    assert_eq!(
        levels("{..}", Some(full(&FULL_HASH.to_uppercase()))),
        Some(AuthorizationLevel::Frontend("ada".to_string()))
    );
}

#[test]
fn forged_login_data_make_nothing() {
    assert_eq!(levels("{..}", Some(full(BARE_HASH))), None);
    assert_eq!(levels("{..}", Some(bare(FULL_HASH))), None);
    assert_eq!(levels("{..}", Some(full(""))), None);
    assert_eq!(levels("{..}", Some(full(&FULL_HASH[..62]))), None);
    let mut tampered = full(FULL_HASH);
    tampered.username = "eve".to_string();
    assert_eq!(levels("{..}", Some(tampered)), None);
}

#[test]
fn ill_written_hash_makes_nothing() {
    assert_eq!(levels("{..}", Some(full("xyz"))), None);
    assert_eq!(levels("{..}", Some(full(&format!("{}g", &FULL_HASH[..63])))), None);
    assert_eq!(levels("{..}", Some(full("6dé1"))), None);
}

#[test]
fn login_is_decided_by_the_computed_signature() {
    assert_eq!(
        check_login(full("0aff10"), &vec![10, 255, 16]),
        Some(AuthorizationLevel::Frontend("ada".to_string()))
    );
    assert_eq!(check_login(full("0aff10"), &vec![10, 255, 17]), None);
    assert_eq!(check_login(full("0aff10"), &vec![10, 255]), None);
    assert_eq!(check_login(full("0aff1"), &vec![10, 255, 1]), Some(AuthorizationLevel::Frontend("ada".to_string())));
    assert_eq!(check_login(full(""), &vec![]), Some(AuthorizationLevel::Frontend("ada".to_string())));
    assert_eq!(check_login(full("0g"), &vec![0]), None);
}

#[test]
fn hexadecimal_is_read_two_characters_to_the_byte() {
    assert_eq!(decode_hex(&"".to_string()), Some(vec![]));
    assert_eq!(decode_hex(&"00ff7fA0".to_string()), Some(vec![0, 255, 127, 160]));
    assert_eq!(decode_hex(&"abc".to_string()), Some(vec![0xab, 0x0c]));
    assert_eq!(decode_hex(&"+f".to_string()), Some(vec![15]));
    assert_eq!(decode_hex(&"+".to_string()), None);
    assert_eq!(decode_hex(&"f+".to_string()), None);
    assert_eq!(decode_hex(&"-1".to_string()), None);
    assert_eq!(decode_hex(&"0x".to_string()), None);
    assert_eq!(decode_hex(&" 1".to_string()), None);
    assert_eq!(decode_hex(&"é".to_string()), None);
    assert_eq!(decode_hex(&"aé".to_string()), None);
}

#[test]
fn hexadecimal_is_read_as_the_standard_library_reads_it() {
    let alphabet: Vec<char> = "09afAFgG+-/:@`{ xé\u{7f}\u{80}".chars().collect();
    for &a in &alphabet {
        let one: String = [a].iter().collect();
        assert_eq!(
            decode_hex(&one),
            u8::from_str_radix(&one, 16).ok().map(|b| vec![b]),
            "{one:?}"
        );
        for &b in &alphabet {
            let two: String = [a, b].iter().collect();
            assert_eq!(
                decode_hex(&two),
                u8::from_str_radix(&two, 16).ok().map(|b| vec![b]),
                "{two:?}"
            );
        }
    }
}

fn flat() -> Group {
    Group {
        id: "g".to_string(),
        name: "Flat".to_string(),
        expenses: vec![Expense {
            name: "rent".to_string(),
            amount: 90000,
            payer: "ada".to_string(),
            receivers: vec!["ada".to_string(), "bob".to_string()],
        }],
    }
}

fn user(nick: &str) -> Option<AuthorizationLevel> {
    Some(AuthorizationLevel::Frontend(nick.to_string()))
}

#[test]
fn the_bot_may_see_and_change_everything() {
    let bot = Some(AuthorizationLevel::Bot);
    assert_eq!(group_access(&bot, &flat()), Access::Granted);
    assert_eq!(user_access(&bot, &"ada".to_string()), Access::Granted);
    assert_eq!(change_access(&bot), Access::Granted);
}

#[test]
fn a_participant_may_see_their_groups_and_their_own_standing() {
    assert_eq!(group_access(&user("ada"), &flat()), Access::Granted);
    assert_eq!(group_access(&user("bob"), &flat()), Access::Granted);
    assert_eq!(group_access(&user("eve"), &flat()), Access::Denied);
    assert_eq!(group_access(&user("Ada"), &flat()), Access::Denied);
    assert_eq!(user_access(&user("ada"), &"ada".to_string()), Access::Granted);
    assert_eq!(user_access(&user("ada"), &"bob".to_string()), Access::Denied);
    assert_eq!(change_access(&user("ada")), Access::Denied);
}

#[test]
fn no_authorization_is_malformed() {
    assert_eq!(group_access(&None, &flat()), Access::Malformed);
    assert_eq!(user_access(&None, &"ada".to_string()), Access::Malformed);
    assert_eq!(change_access(&None), Access::Malformed);
}
