//! Platform accounts: which request checks a token, how the platform's
//! answer is read, and what account state it gives.
use vstd::prelude::*;

use crate::config::{opt_view, Account, AccountStatus};
use crate::error::FerryError;
use crate::text::{decimal, push_decimal, push_str};

verus! {

broadcast use vstd::string::group_string_axioms;

#[derive(Debug, Clone, Copy, PartialEq, Eq, Structural)]
pub enum Platform {
    Github,
    Gitee,
}

pub open spec fn platform_name(p: Platform) -> Seq<char> {
    match p {
        Platform::Github => "github"@,
        Platform::Gitee => "gitee"@,
    }
}

impl Platform {
    /// The platform's name (also its keychain account name).
    pub fn as_str(&self) -> (s: &'static str)
        ensures
            s@ == platform_name(*self),
    {
        match self {
            Platform::Github => "github",
            Platform::Gitee => "gitee",
        }
    }
}

/// What checking a token found.
#[derive(Debug, PartialEq, Eq)]
pub enum VerifyOutcome {
    /// The platform's login name for the token.
    Connected(String),
    Unauthorized,
    Unexpected(String),
}

pub enum VerifyOutcomeView {
    Connected(Seq<char>),
    Unauthorized,
    Unexpected(Seq<char>),
}

impl View for VerifyOutcome {
    type V = VerifyOutcomeView;

    open spec fn view(&self) -> VerifyOutcomeView {
        match self {
            VerifyOutcome::Connected(l) => VerifyOutcomeView::Connected(l@),
            VerifyOutcome::Unauthorized => VerifyOutcomeView::Unauthorized,
            VerifyOutcome::Unexpected(d) => VerifyOutcomeView::Unexpected(d@),
        }
    }
}

/// The user a successful answer describes, as the platform's JSON gives it:
/// its login name, when there is one.
#[derive(Debug)]
pub struct UserInfo {
    pub login: Option<String>,
}

/// What the platform's answer means: 200 with a login is connected, 401 is
/// unauthorized, anything else unexpected.
pub open spec fn outcome_of(status: u16, login: Option<Seq<char>>) -> VerifyOutcomeView {
    if status == 200 {
        match login {
            Some(l) => VerifyOutcomeView::Connected(l),
            None => VerifyOutcomeView::Unexpected("响应缺少 login 字段"@),
        }
    } else if status == 401 {
        VerifyOutcomeView::Unauthorized
    } else {
        VerifyOutcomeView::Unexpected("HTTP "@ + decimal(status as nat))
    }
}

/// The outcome of a check, given the HTTP status and (for status 200) the
/// login name read from the body.
pub fn outcome_from(status: u16, login: Option<String>) -> (r: VerifyOutcome)
    ensures
        r@ == outcome_of(status, opt_view(login)),
{
    if status == 200 {
        match login {
            Some(l) => VerifyOutcome::Connected(l),
            None => {
                let mut m = String::new();
                push_str(&mut m, "响应缺少 login 字段");
                assert(m@ =~= "响应缺少 login 字段"@);
                VerifyOutcome::Unexpected(m)
            },
        }
    } else if status == 401 {
        VerifyOutcome::Unauthorized
    } else {
        let mut m = String::new();
        push_str(&mut m, "HTTP ");
        push_decimal(&mut m, status as u64);
        assert(m@ =~= "HTTP "@ + decimal(status as nat));
        VerifyOutcome::Unexpected(m)
    }
}

/// Reads the platform's answer to a token check: its HTTP status and, when
/// its body could be read as a user, that user. The body is only looked at
/// for status 200.
pub fn parse_verify_response(status: u16, user: Option<UserInfo>) -> (r: VerifyOutcome)
    ensures
        r@ == outcome_of(
            status,
            if status == 200 {
                match user {
                    Some(u) => opt_view(u.login),
                    None => None,
                }
            } else {
                None
            },
        ),
{
    if status == 200 {
        match user {
            Some(u) => outcome_from(status, u.login),
            None => outcome_from(status, None),
        }
    } else {
        outcome_from(status, None)
    }
}

/// The URL that checks a token, and the `Authorization` header (empty when
/// the token travels in the URL, as Gitee wants it).
pub open spec fn verify_request_of(p: Platform, token: Seq<char>) -> (Seq<char>, Seq<char>) {
    match p {
        Platform::Github => ("https://api.github.com/user"@, "Bearer "@ + token),
        Platform::Gitee => ("https://gitee.com/api/v5/user?access_token="@ + token, seq![]),
    }
}

/// The request that checks `token` on `platform`.
pub fn verify_request(platform: Platform, token: &str) -> (r: (String, String))
    ensures
        (r.0@, r.1@) == verify_request_of(platform, token@),
{
    let mut url = String::new();
    let mut auth = String::new();
    match platform {
        Platform::Github => {
            push_str(&mut url, "https://api.github.com/user");
            push_str(&mut auth, "Bearer ");
            push_str(&mut auth, token);
            assert(url@ =~= "https://api.github.com/user"@);
            assert(auth@ =~= "Bearer "@ + token@);
        },
        Platform::Gitee => {
            push_str(&mut url, "https://gitee.com/api/v5/user?access_token=");
            push_str(&mut url, token);
            assert(url@ =~= "https://gitee.com/api/v5/user?access_token="@ + token@);
        },
    }
    (url, auth)
}

/// The account a check gives: connected with its login, invalid when the
/// token was refused; an unexpected answer is an error.
pub fn account_for(outcome: VerifyOutcome) -> (r: Result<Account, FerryError>)
    ensures
        match outcome@ {
            VerifyOutcomeView::Connected(l) => r matches Ok(a) && a@.status
                == AccountStatus::Connected && a@.login == Some(l),
            VerifyOutcomeView::Unauthorized => r matches Ok(a) && a@.status
                == AccountStatus::Invalid && a@.login is None,
            VerifyOutcomeView::Unexpected(d) => r matches Err(FerryError::Message(m)) && m@
                == "平台请求失败："@ + d,
        },
{
    match outcome {
        VerifyOutcome::Connected(login) => Ok(
            Account { status: AccountStatus::Connected, login: Some(login) },
        ),
        VerifyOutcome::Unauthorized => Ok(Account { status: AccountStatus::Invalid, login: None }),
        VerifyOutcome::Unexpected(detail) => {
            let mut m = String::new();
            push_str(&mut m, "平台请求失败：");
            push_str(&mut m, detail.as_str());
            assert(m@ =~= "平台请求失败："@ + detail@);
            Err(FerryError::Message(m))
        },
    }
}

} // verus!
