//! Account records: where the inbox is, and the credentials for it.
use vstd::prelude::*;

verus! {

pub const POP3_PORT: u16 = 995;

pub const IMAP_PORT: u16 = 993;

/// The inbox server of an account: host and port, over POP3 or IMAP.
#[derive(Clone)]
pub enum InboxConfig {
    Pop3(String, u16),
    Imap(String, u16),
}

impl InboxConfig {
    pub fn new_pop3(domain: String) -> (r: InboxConfig)
        ensures
            r matches InboxConfig::Pop3(d, p) && d == domain && p == POP3_PORT,
    {
        InboxConfig::Pop3(domain, POP3_PORT)
    }

    pub fn new_imap(domain: String) -> (r: InboxConfig)
        ensures
            r matches InboxConfig::Imap(d, p) && d == domain && p == IMAP_PORT,
    {
        InboxConfig::Imap(domain, IMAP_PORT)
    }
}

/// One configured account.
#[derive(Clone)]
pub struct Account {
    pub inbox_domain: InboxConfig,
    pub smtp_domain: String,
    pub name: String,
    pub password: String,
    pub shortcut: Option<String>,
}

/// The key an account is filed under: its shortcut, or else its login name.
pub open spec fn account_key(a: Account) -> Seq<char> {
    match a.shortcut {
        Some(s) => s@,
        None => a.name@,
    }
}

impl Account {
    pub fn new(
        inbox_domain: InboxConfig,
        smtp_domain: String,
        name: String,
        password: String,
        shortcut: Option<String>,
    ) -> (r: Account)
        ensures
            r.inbox_domain == inbox_domain,
            r.smtp_domain == smtp_domain,
            r.name == name,
            r.password == password,
            r.shortcut == shortcut,
    {
        Account { inbox_domain, smtp_domain, name, password, shortcut }
    }

    /// Builds an account from the fields of a stored record: exactly one of
    /// the POP3 and IMAP hosts must be given (else the error names
    /// `inbox_domain`), then the SMTP host, the name and the password (else the
    /// error names the first one missing).
    pub fn from_fields(
        pop3_domain: Option<String>,
        imap_domain: Option<String>,
        smtp_domain: Option<String>,
        name: Option<String>,
        password: Option<String>,
        shortcut: Option<String>,
    ) -> (r: Result<Account, String>)
        ensures
            (pop3_domain is Some) == (imap_domain is Some) ==> (r matches Err(e) && e@
                == "inbox_domain"@),
            (pop3_domain is Some) != (imap_domain is Some) && smtp_domain is None ==> (r matches Err(
                e,
            ) && e@ == "smtp_domain"@),
            (pop3_domain is Some) != (imap_domain is Some) && smtp_domain is Some && name is None
                ==> (r matches Err(e) && e@ == "name"@),
            (pop3_domain is Some) != (imap_domain is Some) && smtp_domain is Some && name is Some
                && password is None ==> (r matches Err(e) && e@ == "password"@),
            (pop3_domain is Some) != (imap_domain is Some) && smtp_domain is Some && name is Some
                && password is Some ==> (r matches Ok(a) && (match pop3_domain {
                Some(d) => a.inbox_domain == InboxConfig::Pop3(d, POP3_PORT),
                None => a.inbox_domain == InboxConfig::Imap(imap_domain->Some_0, IMAP_PORT),
            }) && Some(a.smtp_domain) == smtp_domain && Some(a.name) == name && Some(a.password)
                == password && a.shortcut == shortcut),
    {
        let inbox_domain = match (pop3_domain, imap_domain) {
            (Some(domain), None) => InboxConfig::new_pop3(domain),
            (None, Some(domain)) => InboxConfig::new_imap(domain),
            (_, _) => {
                return Err(String::from_str("inbox_domain"));
            },
        };
        let smtp_domain = match smtp_domain {
            Some(v) => v,
            None => {
                return Err(String::from_str("smtp_domain"));
            },
        };
        let name = match name {
            Some(v) => v,
            None => {
                return Err(String::from_str("name"));
            },
        };
        let password = match password {
            Some(v) => v,
            None => {
                return Err(String::from_str("password"));
            },
        };
        Ok(Account::new(inbox_domain, smtp_domain, name, password, shortcut))
    }

    /// The key the account is filed under (see `account_key`).
    pub fn key(&self) -> (r: String)
        ensures
            r@ == account_key(*self),
    {
        match &self.shortcut {
            Some(s) => s.clone(),
            None => self.name.clone(),
        }
    }
}

} // verus!
