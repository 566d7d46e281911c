//! What can go wrong when something is fetched.
use crate::decimal::{decimal, decimal_string};
use vstd::prelude::*;

verus! {

/// Why something was not fetched.
#[derive(Debug)]
pub enum Error {
    /// The host could not be reached.
    Connect { host: String, reason: String },
    /// The answer has another status than 200.
    Http { status: u16, path: String },
    /// The remote path is neither a directory nor a file.
    NotFound { remote: String },
    /// Nothing came in time; `phase` is what was waited for.
    Timeout { phase: &'static str },
    /// Fewer bytes came than were announced.
    Truncated { remote: String, want: u64, got: u64 },
    /// The arguments or an answer are not of the form they should be.
    Malformed(&'static str),
    /// Reading or writing failed.
    Io(String),
    /// A listing could not be read.
    Json(String),
}

/// The message of an error.
pub open spec fn error_text(error: Error) -> Seq<char> {
    match error {
        Error::Connect { host, reason } => "连接 `"@ + host@ + "` 失败："@ + reason@,
        Error::Http { status, path } => "HTTP "@ + decimal(status as nat) + " 请求 "@ + path@,
        Error::NotFound { remote } => "远端 `"@ + remote@ + "` 不存在（既不是目录也不是文件）"@,
        Error::Timeout { phase } => phase@ + "超时：远端在约定时间内没有应答"@,
        Error::Truncated { remote, want, got } => "远端 `"@ + remote@ + "` 传输不完整：应得 "@ + decimal(
            want as nat,
        ) + " 字节，只收到 "@ + decimal(got as nat) + " 字节"@,
        Error::Malformed(what) => what@,
        Error::Io(reason) => reason@,
        Error::Json(reason) => reason@,
    }
}

impl Error {
    /// The message of the error.
    pub fn message(&self) -> (r: String)
        ensures
            r@ == error_text(*self),
    {
        match self {
            Error::Connect { host, reason } => {
                let mut out = "连接 `".to_string();
                out.append(host.as_str());
                out.append("` 失败：");
                out.append(reason.as_str());
                out
            },
            Error::Http { status, path } => {
                let mut out = "HTTP ".to_string();
                out.append(decimal_string(*status as u64).as_str());
                out.append(" 请求 ");
                out.append(path.as_str());
                out
            },
            Error::NotFound { remote } => {
                let mut out = "远端 `".to_string();
                out.append(remote.as_str());
                out.append("` 不存在（既不是目录也不是文件）");
                out
            },
            Error::Timeout { phase } => {
                let mut out = (*phase).to_string();
                out.append("超时：远端在约定时间内没有应答");
                out
            },
            Error::Truncated { remote, want, got } => {
                let mut out = "远端 `".to_string();
                out.append(remote.as_str());
                out.append("` 传输不完整：应得 ");
                out.append(decimal_string(*want).as_str());
                out.append(" 字节，只收到 ");
                out.append(decimal_string(*got).as_str());
                out.append(" 字节");
                out
            },
            Error::Malformed(what) => (*what).to_string(),
            Error::Io(reason) => reason.clone(),
            Error::Json(reason) => reason.clone(),
        }
    }
}

/// An error's text names what the error holds: the host and the reason, the status and the path, the
/// remote path, the phase, and the lengths that were owed and came.
pub proof fn law_texts_name_their_parts(a: String, b: String, status: u16, want: u64, got: u64)
    ensures
        error_text(Error::Connect { host: a, reason: b }) == "连接 `"@ + a@ + "` 失败："@ + b@,
        error_text(Error::Http { status, path: a }) == "HTTP "@ + decimal(status as nat) + " 请求 "@
            + a@,
        error_text(Error::NotFound { remote: a }) == "远端 `"@ + a@
            + "` 不存在（既不是目录也不是文件）"@,
        error_text(Error::Truncated { remote: a, want, got }) == "远端 `"@ + a@
            + "` 传输不完整：应得 "@ + decimal(want as nat) + " 字节，只收到 "@ + decimal(
            got as nat,
        ) + " 字节"@,
        error_text(Error::Io(a)) == a@,
        error_text(Error::Json(a)) == a@,
{
}

/// A timeout names what was waited for, and a message that is given stands as it is.
pub proof fn law_given_words_stand(phase: &'static str, what: &'static str)
    ensures
        error_text(Error::Timeout { phase }) == phase@ + "超时：远端在约定时间内没有应答"@,
        error_text(Error::Malformed(what)) == what@,
{
}

} // verus!
