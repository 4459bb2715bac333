use gitferry::auth::{
    account_for, parse_verify_response, verify_request, Platform, UserInfo, VerifyOutcome,
};
use gitferry::config::AccountStatus;
use gitferry::error::FerryError;

fn user(login: Option<&str>) -> Option<UserInfo> {
    Some(UserInfo {
        login: login.map(|l| l.to_string()),
    })
}

#[test]
fn outcomes_by_status() {
    assert_eq!(
        parse_verify_response(200, user(Some("shetengteng"))),
        VerifyOutcome::Connected("shetengteng".into())
    );
    assert_eq!(
        parse_verify_response(401, user(None)),
        VerifyOutcome::Unauthorized
    );
    assert!(matches!(
        parse_verify_response(500, None),
        VerifyOutcome::Unexpected(_)
    ));
    assert!(matches!(
        parse_verify_response(200, user(None)),
        VerifyOutcome::Unexpected(_)
    ));
}

#[test]
fn unexpected_answers_say_why() {
    assert_eq!(
        parse_verify_response(500, user(Some("x"))),
        VerifyOutcome::Unexpected("HTTP 500".into())
    );
    assert_eq!(
        parse_verify_response(200, user(None)),
        VerifyOutcome::Unexpected("响应缺少 login 字段".into())
    );
    assert_eq!(
        parse_verify_response(200, None),
        VerifyOutcome::Unexpected("响应缺少 login 字段".into())
    );
    assert_eq!(
        parse_verify_response(401, user(Some("x"))),
        VerifyOutcome::Unauthorized
    );
    assert_eq!(
        parse_verify_response(0, None),
        VerifyOutcome::Unexpected("HTTP 0".into())
    );
}

#[test]
fn platform_names() {
    assert_eq!(Platform::Github.as_str(), "github");
    assert_eq!(Platform::Gitee.as_str(), "gitee");
}

#[test]
fn requests_carry_the_token() {
    assert_eq!(
        verify_request(Platform::Github, "t0k"),
        (
            "https://api.github.com/user".to_string(),
            "Bearer t0k".to_string()
        )
    );
    assert_eq!(
        verify_request(Platform::Gitee, "t0k"),
        (
            "https://gitee.com/api/v5/user?access_token=t0k".to_string(),
            String::new()
        )
    );
}

#[test]
fn accounts_from_outcomes() {
    let a = account_for(VerifyOutcome::Connected("me".into())).unwrap();
    assert_eq!(a.status, AccountStatus::Connected);
    assert_eq!(a.login, Some("me".to_string()));
    let b = account_for(VerifyOutcome::Unauthorized).unwrap();
    assert_eq!(b.status, AccountStatus::Invalid);
    assert!(b.login.is_none());
    match account_for(VerifyOutcome::Unexpected("HTTP 502".into())) {
        Err(FerryError::Message(m)) => assert_eq!(m, "平台请求失败：HTTP 502"),
        other => panic!("unexpected {:?}", other),
    }
}
