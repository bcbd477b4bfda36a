//! The accounts whose calendars are synced.
use vstd::prelude::*;

use crate::text::{ends_with, split_once};

verus! {

/// An account as the mail program keeps it.
#[derive(Debug)]
pub struct AccountOnDisk {
    pub email: String,
    pub imap: String,
    pub password: String,
}

/// An account of a CalDAV server.
#[derive(Debug)]
pub struct Account {
    pub email: String,
    pub password: String,
}

/// What a sign-in with Google keeps of an account.
#[derive(Debug)]
pub struct OAuthOnDisk {
    pub email: String,
    pub is_oauth: bool,
    pub refresh_token: Option<String>,
    pub client_id: Option<String>,
    pub client_secret: Option<String>,
}

/// The credentials of the program for accounts that have none of their own.
#[derive(Debug)]
pub struct GoogleClientConfig {
    pub client_id: String,
    pub client_secret: String,
}

/// An account of Google.
#[derive(Debug)]
pub struct GoogleAccount {
    pub email: String,
    pub refresh_token: String,
    pub client_id: String,
    pub client_secret: String,
}

// ── iCloud ────────────────────────────────────────────────────────────────

/// Whether a mail address or the host of a mail server, before its port, is of iCloud.
pub open spec fn is_of_icloud(email: Seq<char>, imap: Seq<char>) -> bool {
    let host = imap.take(crate::text::find(imap, ':'));
    ||| ".mail.me.com"@.is_suffix_of(host)
    ||| "@icloud.com"@.is_suffix_of(email)
    ||| "@me.com"@.is_suffix_of(email)
    ||| "@mac.com"@.is_suffix_of(email)
}

/// Whether an account is one of iCloud.
pub fn is_icloud(acc: &AccountOnDisk) -> (r: bool)
    ensures
        r == is_of_icloud(acc.email@, acc.imap@),
{
    let imap = acc.imap.as_str();
    let host = match split_once(imap, ':') {
        Some((host, _)) => host,
        None => {
            assert(imap@.take(imap@.len() as int) =~= imap@);
            imap
        },
    };
    let email = acc.email.as_str();
    ends_with(host, ".mail.me.com") || ends_with(email, "@icloud.com") || ends_with(
        email,
        "@me.com",
    ) || ends_with(email, "@mac.com")
}

/// Whether the password of an account has to be asked of the keyring: it is one of iCloud, and
/// no password stands in the file.
pub fn needs_keyring(acc: &AccountOnDisk) -> (r: bool)
    ensures
        r == (is_of_icloud(acc.email@, acc.imap@) && acc.password@.len() == 0),
{
    is_icloud(acc) && acc.password.as_str().is_empty()
}

/// The address and the password of an account of iCloud, given what the keyring holds for it:
/// none for another account and for one without a password.
pub open spec fn icloud_account(acc: AccountOnDisk, keyring: Option<Seq<char>>) -> Option<
    (Seq<char>, Seq<char>),
> {
    if !is_of_icloud(acc.email@, acc.imap@) {
        None
    } else if acc.password@.len() > 0 {
        Some((acc.email@, acc.password@))
    } else {
        match keyring {
            Some(password) => Some((acc.email@, password)),
            None => None,
        }
    }
}

/// The accounts of iCloud among the first `n`, in order.
pub open spec fn icloud_among(
    on_disk: Seq<AccountOnDisk>,
    keyring: Seq<Option<String>>,
    n: int,
) -> Seq<(Seq<char>, Seq<char>)>
    decreases n,
{
    if n <= 0 {
        Seq::empty()
    } else {
        let before = icloud_among(on_disk, keyring, n - 1);
        match icloud_account(on_disk[n - 1], crate::text::opt_text(keyring[n - 1])) {
            Some(a) => before.push(a),
            None => before,
        }
    }
}

/// What a list of accounts says.
pub open spec fn account_views(list: Seq<Account>) -> Seq<(Seq<char>, Seq<char>)> {
    Seq::new(list.len(), |i: int| (list[i].email@, list[i].password@))
}

/// The accounts of iCloud, given what the keyring holds for each account.
pub fn icloud_accounts(on_disk: &Vec<AccountOnDisk>, keyring: &Vec<Option<String>>) -> (list: Vec<
    Account,
>)
    requires
        keyring@.len() == on_disk@.len(),
    ensures
        account_views(list@) == icloud_among(on_disk@, keyring@, on_disk@.len() as int),
{
    let mut list: Vec<Account> = Vec::new();
    let mut i: usize = 0;
    assert(account_views(list@) =~= Seq::empty());
    while i < on_disk.len()
        invariant
            i <= on_disk@.len() == keyring@.len(),
            account_views(list@) == icloud_among(on_disk@, keyring@, i as int),
        decreases on_disk@.len() - i,
    {
        let ghost before = account_views(list@);
        let acc = &on_disk[i];
        if is_icloud(acc) {
            if !acc.password.as_str().is_empty() {
                list.push(Account { email: acc.email.clone(), password: acc.password.clone() });
                assert(account_views(list@) =~= before.push((acc.email@, acc.password@)));
            } else if let Some(password) = &keyring[i] {
                list.push(Account { email: acc.email.clone(), password: password.clone() });
                assert(account_views(list@) =~= before.push((acc.email@, password@)));
            }
        }
        i = i + 1;
    }
    list
}

// ── Google ────────────────────────────────────────────────────────────────

#[verifier::ext_equal]
pub struct GoogleView {
    pub email: Seq<char>,
    pub refresh_token: Seq<char>,
    pub client_id: Seq<char>,
    pub client_secret: Seq<char>,
}

impl View for GoogleAccount {
    type V = GoogleView;

    open spec fn view(&self) -> GoogleView {
        GoogleView {
            email: self.email@,
            refresh_token: self.refresh_token@,
            client_id: self.client_id@,
            client_secret: self.client_secret@,
        }
    }
}

/// A text that is there and not empty, or else another.
pub open spec fn own_or(text: Option<String>, other: Seq<char>) -> Seq<char> {
    match text {
        Some(t) if t@.len() > 0 => t@,
        _ => other,
    }
}

fn copy_own_or(text: &Option<String>, other: &String) -> (s: String)
    ensures
        s@ == own_or(*text, other@),
{
    match text {
        Some(t) => {
            if t.as_str().is_empty() {
                other.clone()
            } else {
                t.clone()
            }
        },
        None => other.clone(),
    }
}

/// An account that was signed in and has a token, with its own credentials or those of the
/// program.
pub open spec fn google_account(acc: OAuthOnDisk, template: GoogleClientConfig) -> Option<
    GoogleView,
> {
    match acc.refresh_token {
        Some(token) if acc.is_oauth && token@.len() > 0 => Some(
            GoogleView {
                email: acc.email@,
                refresh_token: token@,
                client_id: own_or(acc.client_id, template.client_id@),
                client_secret: own_or(acc.client_secret, template.client_secret@),
            },
        ),
        _ => None,
    }
}

/// The accounts of Google, in order.
pub open spec fn google_among(on_disk: Seq<OAuthOnDisk>, template: GoogleClientConfig) -> Seq<
    GoogleView,
>
    decreases on_disk.len(),
{
    if on_disk.len() == 0 {
        Seq::empty()
    } else {
        let before = google_among(on_disk.drop_last(), template);
        match google_account(on_disk.last(), template) {
            Some(a) => before.push(a),
            None => before,
        }
    }
}

/// What a list of accounts says.
pub open spec fn google_views(list: Seq<GoogleAccount>) -> Seq<GoogleView> {
    Seq::new(list.len(), |i: int| list[i]@)
}

/// The accounts of Google that were signed in and have a token.
pub fn google_accounts(on_disk: &Vec<OAuthOnDisk>, template: &GoogleClientConfig) -> (list: Vec<
    GoogleAccount,
>)
    ensures
        google_views(list@) == google_among(on_disk@, *template),
{
    let mut list: Vec<GoogleAccount> = Vec::new();
    let mut i: usize = 0;
    assert(google_views(list@) =~= Seq::empty());
    while i < on_disk.len()
        invariant
            i <= on_disk@.len(),
            google_views(list@) == google_among(on_disk@.take(i as int), *template),
        decreases on_disk@.len() - i,
    {
        assert(on_disk@.take(i + 1).drop_last() =~= on_disk@.take(i as int));
        let ghost before = google_views(list@);
        let acc = &on_disk[i];
        if acc.is_oauth {
            if let Some(token) = &acc.refresh_token {
                if !token.as_str().is_empty() {
                    let a = GoogleAccount {
                        email: acc.email.clone(),
                        refresh_token: token.clone(),
                        client_id: copy_own_or(&acc.client_id, &template.client_id),
                        client_secret: copy_own_or(&acc.client_secret, &template.client_secret),
                    };
                    list.push(a);
                    assert(google_views(list@) =~= before.push(a@));
                }
            }
        }
        i = i + 1;
    }
    assert(on_disk@.take(i as int) =~= on_disk@);
    list
}

// ── Either ────────────────────────────────────────────────────────────────

/// An account of either kind.
#[derive(Debug)]
pub enum Backend {
    ICloud(Account),
    Google(GoogleAccount),
}

/// The mail address of an account.
pub open spec fn email_of(b: Backend) -> Seq<char> {
    match b {
        Backend::ICloud(a) => a.email@,
        Backend::Google(a) => a.email@,
    }
}

/// What kind of account it is.
pub open spec fn kind_of(b: Backend) -> Seq<char> {
    match b {
        Backend::ICloud(_) => "icloud"@,
        Backend::Google(_) => "google"@,
    }
}

/// The mark that the records of an account carry.
pub open spec fn source_of(b: Backend) -> Seq<char> {
    kind_of(b) + ":"@ + email_of(b)
}

impl Backend {
    /// The mail address of the account.
    pub fn email(&self) -> (s: &str)
        ensures
            s@ == email_of(*self),
    {
        match self {
            Backend::ICloud(a) => a.email.as_str(),
            Backend::Google(a) => a.email.as_str(),
        }
    }

    /// What kind of account it is: `icloud` or `google`.
    pub fn kind(&self) -> (s: &'static str)
        ensures
            s@ == kind_of(*self),
    {
        match self {
            Backend::ICloud(_) => "icloud",
            Backend::Google(_) => "google",
        }
    }

    /// The mark that the records of the account carry.
    pub fn source(&self) -> (s: String)
        ensures
            s@ == source_of(*self),
    {
        let mut s = self.kind().to_owned();
        s.append(":");
        s.append(self.email());
        s
    }
}

/// Accounts that differ in kind or address mark their records differently.
pub proof fn law_sources_are_distinct(a: Backend, b: Backend)
    requires
        source_of(a) == source_of(b),
    ensures
        kind_of(a) == kind_of(b),
        email_of(a) == email_of(b),
{
    reveal_strlit("icloud");
    reveal_strlit("google");
    reveal_strlit(":");
    let (s, t) = (source_of(a), source_of(b));
    assert(s[0] == kind_of(a)[0]);
    assert(t[0] == kind_of(b)[0]);
    assert(email_of(a) =~= s.skip(7));
    assert(email_of(b) =~= t.skip(7));
}

} // verus!
