//! The store-and-forward mailbox: a byte transport only. Encryption and the
//! meaning of the content live in `crypto` and `sync`.

use vstd::prelude::*;
use crate::wire::{append_decimal, decimal_chars};

verus! {

/// A wrong access key must be told apart from a lost connection: one asks
/// the user to fix the configuration, the other only to try again.
#[derive(Debug)]
pub enum MailboxError {
    /// 401/403: the key is wrong, expired, or lacks rights on the bucket.
    Auth(String),
    /// The mailbox could not be reached: DNS, time-out, offline.
    Network(String),
    Other(String),
}

/// What `MailboxError::to_string` says for each kind of error.
pub open spec fn mailbox_message(e: MailboxError) -> Seq<char> {
    match e {
        MailboxError::Auth(m) => "hộp thư từ chối truy cập (kiểm tra access key): "@ + m@,
        MailboxError::Network(m) => "không kết nối được hộp thư: "@ + m@,
        MailboxError::Other(m) => "lỗi hộp thư: "@ + m@,
    }
}

impl MailboxError {
    /// The error as a message for the user.
    pub fn to_string(&self) -> (r: String)
        ensures
            r@ == mailbox_message(*self),
    {
        match self {
            MailboxError::Auth(m) => "hộp thư từ chối truy cập (kiểm tra access key): ".to_owned().concat(m.as_str()),
            MailboxError::Network(m) => "không kết nối được hộp thư: ".to_owned().concat(m.as_str()),
            MailboxError::Other(m) => "lỗi hộp thư: ".to_owned().concat(m.as_str()),
        }
    }
}

pub type MailboxResult<T> = Result<T, MailboxError>;

/// A mailbox bucket: objects named by key, listed by key prefix.
pub trait Mailbox {
    fn put(&self, key: &str, body: &[u8]) -> MailboxResult<()>;

    fn list(&self, prefix: &str) -> MailboxResult<Vec<String>>;

    fn get(&self, key: &str) -> MailboxResult<Vec<u8>>;

    fn delete(&self, key: &str) -> MailboxResult<()>;
}

/// How a failed HTTP exchange is reported: `status` is the response status
/// when one came back, `detail` describes the failure otherwise.
pub open spec fn classify_spec(status: Option<u16>, detail: Seq<char>) -> (Seq<char>, int) {
    match status {
        Some(s) => if s == 401 || s == 403 {
            ("HTTP 401/403 từ R2"@, 0)
        } else {
            ("HTTP "@ + decimal_chars(s as nat), 2)
        },
        None => (detail, 1),
    }
}

/// How a failed exchange is sorted, stated from the status alone: 401 and
/// 403 are authentication failures, any other status is another error, and
/// no response at all is a network failure carrying the reason given.
pub proof fn lemma_classify_rule(status: Option<u16>, detail: Seq<char>)
    ensures
        status matches Some(s) ==> (classify_spec(status, detail).1 == 0 <==> (s == 401 || s == 403)),
        status matches Some(s) ==> (classify_spec(status, detail).1 == 2 <==> !(s == 401 || s == 403)),
        status is None ==> classify_spec(status, detail) == (detail, 1int),
{
}

/// Sorts a failed HTTP exchange into the three kinds of mailbox error:
/// status 401 or 403 is `Auth`, any other status is `Other`, and no
/// response at all is `Network`.
pub fn phan_loai(status: Option<u16>, detail: &str) -> (r: MailboxError)
    ensures
        ({
            let (m, k) = classify_spec(status, detail@);
            match r {
                MailboxError::Auth(x) => k == 0 && x@ == m,
                MailboxError::Network(x) => k == 1 && x@ == m,
                MailboxError::Other(x) => k == 2 && x@ == m,
            }
        }),
{
    proof {
        reveal_strlit("HTTP 401/403 từ R2");
        reveal_strlit("HTTP ");
    }
    match status {
        Some(s) => {
            if s == 401 || s == 403 {
                MailboxError::Auth("HTTP 401/403 từ R2".to_owned())
            } else {
                let mut m = "HTTP ".to_owned();
                append_decimal(&mut m, s as u64);
                MailboxError::Other(m)
            }
        },
        None => MailboxError::Network(detail.to_owned()),
    }
}

/// The object keys a LIST response names, in document order, or `None`
/// when the XML is not a LIST response.
pub uninterp spec fn s3_list_keys(xml: Seq<char>) -> Option<Seq<Seq<char>>>;

/// Trusted: wraps `rusty_s3::actions::ListObjectsV2::parse_response` and
/// takes the `key` of each entry of `contents`. Claims only that the outcome
/// is the named function `s3_list_keys` of the text; the error's message is
/// left unsaid.
#[verifier::external_body]
fn parse_list_keys(xml: &str) -> (r: Result<Vec<String>, String>)
    ensures
        match r {
            Ok(keys) => s3_list_keys(xml@) == Some(keys@.map_values(|k: String| k@)),
            Err(_) => s3_list_keys(xml@) is None,
        },
{
    match rusty_s3::actions::ListObjectsV2::parse_response(xml) {
        Ok(res) => Ok(res.contents.into_iter().map(|c| c.key).collect()),
        Err(e) => Err(e.to_string()),
    }
}

/// The keys named by the XML body of a LIST response. A body that cannot be
/// read is an `Other` error saying so. No paging: one response holds up to
/// 1000 keys, plenty for a mailbox emptied at every poll.
pub fn keys_from_list_response(xml: &str) -> (r: MailboxResult<Vec<String>>)
    ensures
        match r {
            Ok(keys) => s3_list_keys(xml@) == Some(keys@.map_values(|k: String| k@)),
            Err(e) => s3_list_keys(xml@) is None && e is Other,
        },
{
    match parse_list_keys(xml) {
        Ok(keys) => Ok(keys),
        Err(e) => Err(MailboxError::Other("XML của LIST không đọc được: ".to_owned().concat(e.as_str()))),
    }
}

} // verus!
