//! Settings read from `config.toml`: this machine's and the peer's names,
//! the mailbox bucket and the crypto salt. Reading the file, checking its
//! permissions and parsing TOML happen at the edge; the checks and the
//! values derived from the settings are here.

use vstd::prelude::*;
use vstd::utf8::encode_utf8;
use crate::wire::{hex_value, is_hex};

verus! {

/// The mailbox bucket. Without it the program runs local-only.
pub struct MailboxConfig {
    pub endpoint: String,
    pub bucket: String,
    pub region: String,
    pub access_key_id: String,
    pub secret_access_key: String,
}

pub struct CryptoConfig {
    /// Argon2id salt, 16 bytes in hexadecimal. It must be copied verbatim to
    /// the other machine together with the passphrase: another salt gives
    /// another key and every object fails to decrypt.
    pub salt: String,
    /// File holding the passphrase; when absent the passphrase comes from
    /// `X2CLIP_PASSPHRASE`. The passphrase is never written in the config.
    pub passphrase_file: Option<String>,
}

pub struct Config {
    /// This machine's name: its inbox is `inbox/<machine>/`.
    pub machine: String,
    /// The other machine's name: where this one puts objects.
    pub peer: String,
    /// Mailbox poll period, in seconds.
    pub poll_secs: u64,
    pub mailbox: Option<MailboxConfig>,
    pub crypto: Option<CryptoConfig>,
}

#[derive(Debug)]
pub enum ConfigError {
    /// `machine == peer` with a mailbox: the machine would send to itself
    /// forever. Holds the name.
    SelfLoop(String),
    /// A name still has a template value; holds the field and its value.
    Placeholder(String, String),
    /// The config has no `[crypto]` section.
    MissingCrypto,
    /// `crypto.salt` is not hexadecimal; holds the decoder's reason.
    InvalidSalt(String),
    /// Neither `X2CLIP_PASSPHRASE` nor `crypto.passphrase_file` is set.
    MissingPassphrase,
}

/// What `ConfigError::to_string` says.
pub open spec fn config_message(e: ConfigError) -> Seq<char> {
    match e {
        ConfigError::SelfLoop(n) => "machine và peer đều là \""@ + n@
            + "\" — máy sẽ tự gửi cho chính nó, vòng lặp vô hạn"@,
        ConfigError::Placeholder(f, v) => f@ + " còn là giá trị mẫu (\""@ + v@
            + "\") — đặt tên thật cho hai máy trước khi bật [mailbox]"@,
        ConfigError::MissingCrypto => "config thiếu section [crypto]"@,
        ConfigError::InvalidSalt(m) => "crypto.salt không phải hex hợp lệ: "@ + m@,
        ConfigError::MissingPassphrase => "chưa có passphrase: đặt $X2CLIP_PASSPHRASE hoặc crypto.passphrase_file"@,
    }
}

impl ConfigError {
    /// The error as a message for the user.
    pub fn to_string(&self) -> (r: String)
        ensures
            r@ == config_message(*self),
    {
        match self {
            ConfigError::SelfLoop(n) => "machine và peer đều là \"".to_owned().concat(n.as_str()).concat(
                "\" — máy sẽ tự gửi cho chính nó, vòng lặp vô hạn",
            ),
            ConfigError::Placeholder(f, v) => f.clone().concat(" còn là giá trị mẫu (\"").concat(v.as_str()).concat(
                "\") — đặt tên thật cho hai máy trước khi bật [mailbox]",
            ),
            ConfigError::MissingCrypto => "config thiếu section [crypto]".to_owned(),
            ConfigError::InvalidSalt(m) => "crypto.salt không phải hex hợp lệ: ".to_owned().concat(m.as_str()),
            ConfigError::MissingPassphrase => "chưa có passphrase: đặt $X2CLIP_PASSPHRASE hoặc crypto.passphrase_file".to_owned(),
        }
    }
}

/// Default mailbox poll period: 30 seconds.
pub fn default_poll_secs() -> (r: u64)
    ensures
        r == 30,
{
    30
}

/// Default bucket region: `auto`.
pub fn default_region() -> (r: String)
    ensures
        r@ == "auto"@,
{
    "auto".to_owned()
}

/// The text of the default config file, with the `[mailbox]` section
/// commented out so that it runs local-only at once.
pub open spec fn template_text(machine: Seq<char>, peer: Seq<char>, salt_hex: Seq<char>) -> Seq<char> {
    "# x2clip — sửa xong nhớ giữ file này ở chmod 0600.\nmachine = \""@ + machine + "\"\npeer = \""@ + peer
        + "\"\npoll_secs = 30\n\n# Bỏ comment để bật đồng bộ. Access key phải giới hạn đúng bucket này.\n# [mailbox]\n# endpoint = \"https://<account-id>.r2.cloudflarestorage.com\"\n# bucket = \"x2clip\"\n# region = \"auto\"\n# access_key_id = \"\"\n# secret_access_key = \"\"\n\n[crypto]\n# COPY Y HỆT DÒNG NÀY SANG MÁY KIA. Khác salt là khác khoá, mọi thứ nhận về\n# sẽ giải mã hỏng và trông y như sai passphrase.\nsalt = \""@
        + salt_hex
        + "\"\n# Đường dẫn file passphrase (chmod 0600). Bỏ trống thì đọc $X2CLIP_PASSPHRASE.\n# passphrase_file = \"~/.config/x2clip/passphrase\"\n"@
}

/// The default config file for this machine.
pub fn mau_mac_dinh(machine: &str, peer: &str, salt_hex: &str) -> (r: String)
    ensures
        r@ == template_text(machine@, peer@, salt_hex@),
{
    "# x2clip — sửa xong nhớ giữ file này ở chmod 0600.\nmachine = \"".to_owned().concat(machine).concat(
        "\"\npeer = \"",
    ).concat(peer).concat(
        "\"\npoll_secs = 30\n\n# Bỏ comment để bật đồng bộ. Access key phải giới hạn đúng bucket này.\n# [mailbox]\n# endpoint = \"https://<account-id>.r2.cloudflarestorage.com\"\n# bucket = \"x2clip\"\n# region = \"auto\"\n# access_key_id = \"\"\n# secret_access_key = \"\"\n\n[crypto]\n# COPY Y HỆT DÒNG NÀY SANG MÁY KIA. Khác salt là khác khoá, mọi thứ nhận về\n# sẽ giải mã hỏng và trông y như sai passphrase.\nsalt = \"",
    ).concat(salt_hex).concat(
        "\"\n# Đường dẫn file passphrase (chmod 0600). Bỏ trống thì đọc $X2CLIP_PASSPHRASE.\n# passphrase_file = \"~/.config/x2clip/passphrase\"\n",
    )
}

/// A name still holding a template value: empty, `peer` or `may-nay`.
pub open spec fn is_placeholder(name: Seq<char>) -> bool {
    name.len() == 0 || name == "peer"@ || name == "may-nay"@
}

/// Whether `name` still holds a template value.
fn is_template_name(name: &String) -> (r: bool)
    ensures
        r == is_placeholder(name@),
{
    name.as_str().is_empty() || *name == "peer".to_owned() || *name == "may-nay".to_owned()
}

/// A file holding secrets grants some access to group or others.
pub fn mode_too_open(mode: u32) -> (r: bool)
    ensures
        r == (mode & 0o77 != 0),
{
    mode & 0o77 != 0
}

/// This machine's name from the `HOSTNAME` value, or `may-nay` when it is
/// unset or empty.
pub fn hostname(env_value: Option<String>) -> (r: String)
    ensures
        r@ == (match env_value {
            Some(h) => if h@.len() > 0 { h@ } else { "may-nay"@ },
            None => "may-nay"@,
        }),
{
    match env_value {
        Some(h) => {
            if h.as_str().is_empty() {
                "may-nay".to_owned()
            } else {
                h
            }
        },
        None => "may-nay".to_owned(),
    }
}

/// Whether `b` is an even number of hexadecimal digits.
pub open spec fn hex_valid(b: Seq<u8>) -> bool {
    b.len() % 2 == 0 && forall|i: int| 0 <= i < b.len() ==> is_hex(#[trigger] b[i])
}

/// The bytes an even run of hexadecimal digits stands for.
pub open spec fn hex_bytes(b: Seq<u8>) -> Seq<u8> {
    Seq::new(b.len() / 2, |i: int| (hex_value(b[2 * i]) * 16 + hex_value(b[2 * i + 1])) as u8)
}

/// Trusted: wraps `hex::decode`. Claims what its source does: it accepts an
/// even number of digits `0-9`, `a-f`, `A-F` and gives one byte per pair,
/// high digit first; anything else is an error (its message is left
/// unsaid).
#[verifier::external_body]
fn hex_decode(s: &str) -> (r: Result<Vec<u8>, String>)
    ensures
        match r {
            Ok(v) => hex_valid(encode_utf8(s@)) && v@ == hex_bytes(encode_utf8(s@)),
            Err(_) => !hex_valid(encode_utf8(s@)),
        },
{
    hex::decode(s).map_err(|e| e.to_string())
}

/// Where the passphrase comes from.
pub enum PassphraseSource {
    /// The value of `X2CLIP_PASSPHRASE`.
    Env(String),
    /// The file named by `crypto.passphrase_file`.
    File(String),
}

impl MailboxConfig {
    /// A debug rendering that hides the access key and the secret: an
    /// error path that logs the config must not leak them.
    pub fn redacted(&self) -> (r: String)
        ensures
            r@ == "MailboxConfig { endpoint: \""@ + self.endpoint@ + "\", bucket: \""@ + self.bucket@
                + "\", region: \""@ + self.region@
                + "\", access_key_id: \"***\", secret_access_key: \"***\" }"@,
    {
        "MailboxConfig { endpoint: \"".to_owned().concat(self.endpoint.as_str()).concat("\", bucket: \"").concat(
            self.bucket.as_str(),
        ).concat("\", region: \"").concat(self.region.as_str()).concat(
            "\", access_key_id: \"***\", secret_access_key: \"***\" }",
        )
    }
}

impl Config {
    /// `machine == peer` means the daemon puts into its own inbox and takes
    /// it in again, forever. Checked only once `[mailbox]` is set: before
    /// that `peer` is the template's placeholder and local-only is fine.
    pub fn kiem_tra_ten_may(&self) -> (r: Result<(), ConfigError>)
        ensures
            match r {
                Ok(()) => self.mailbox is None || (self.machine@ != self.peer@ && !is_placeholder(self.machine@)
                    && !is_placeholder(self.peer@)),
                Err(ConfigError::SelfLoop(n)) => self.mailbox is Some && self.machine@ == self.peer@ && n@
                    == self.machine@,
                Err(ConfigError::Placeholder(f, v)) => self.mailbox is Some && self.machine@ != self.peer@ && (
                if is_placeholder(self.machine@) {
                    f@ == "machine"@ && v@ == self.machine@
                } else {
                    is_placeholder(self.peer@) && f@ == "peer"@ && v@ == self.peer@
                }),
                Err(_) => false,
            },
    {
        if self.mailbox.is_none() {
            return Ok(());
        }
        if self.machine == self.peer {
            return Err(ConfigError::SelfLoop(self.machine.clone()));
        }
        if is_template_name(&self.machine) {
            return Err(ConfigError::Placeholder("machine".to_owned(), self.machine.clone()));
        }
        if is_template_name(&self.peer) {
            return Err(ConfigError::Placeholder("peer".to_owned(), self.peer.clone()));
        }
        Ok(())
    }

    /// Where the passphrase comes from: `X2CLIP_PASSPHRASE` when set
    /// (`env_value`), else `crypto.passphrase_file`. It is never in the
    /// config itself.
    pub fn passphrase(&self, env_value: Option<String>) -> (r: Result<PassphraseSource, ConfigError>)
        ensures
            match r {
                Ok(PassphraseSource::Env(p)) => env_value matches Some(e) && p@ == e@,
                Ok(PassphraseSource::File(f)) => env_value is None && (self.crypto matches Some(c)
                    && c.passphrase_file matches Some(pf) && f@ == pf@),
                Err(e) => e is MissingPassphrase && env_value is None && (self.crypto matches Some(c)
                    ==> c.passphrase_file is None),
            },
    {
        if let Some(p) = env_value {
            return Ok(PassphraseSource::Env(p));
        }
        match &self.crypto {
            Some(c) => match &c.passphrase_file {
                Some(f) => Ok(PassphraseSource::File(f.clone())),
                None => Err(ConfigError::MissingPassphrase),
            },
            None => Err(ConfigError::MissingPassphrase),
        }
    }

    /// The Argon2id salt: `crypto.salt` decoded from hexadecimal.
    pub fn salt(&self) -> (r: Result<Vec<u8>, ConfigError>)
        ensures
            match r {
                Ok(v) => self.crypto matches Some(c) && hex_valid(encode_utf8(c.salt@)) && v@ == hex_bytes(
                    encode_utf8(c.salt@),
                ),
                Err(ConfigError::MissingCrypto) => self.crypto is None,
                Err(ConfigError::InvalidSalt(_)) => self.crypto matches Some(c) && !hex_valid(encode_utf8(c.salt@)),
                Err(_) => false,
            },
    {
        match &self.crypto {
            None => Err(ConfigError::MissingCrypto),
            Some(c) => match hex_decode(c.salt.as_str()) {
                Ok(v) => Ok(v),
                Err(m) => Err(ConfigError::InvalidSalt(m)),
            },
        }
    }

    /// This machine's inbox prefix, where it lists, reads and deletes.
    pub fn inbox_cua_minh(&self) -> (r: String)
        ensures
            r@ == "inbox/"@ + self.machine@ + "/"@,
    {
        "inbox/".to_owned().concat(self.machine.as_str()).concat("/")
    }

    /// The peer's inbox prefix, where this machine puts; never read.
    pub fn inbox_cua_peer(&self) -> (r: String)
        ensures
            r@ == "inbox/"@ + self.peer@ + "/"@,
    {
        "inbox/".to_owned().concat(self.peer.as_str()).concat("/")
    }
}

} // verus!
