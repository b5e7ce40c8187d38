//! What can go wrong.
//!
//! A failed decryption does not say whether the password was wrong or the file
//! was altered: both are [`Error::Unauthenticated`]. Telling them apart would
//! hand an attacker an oracle.

use vstd::prelude::*;

use crate::text::{decimal, joined, push_padded, push_text};

verus! {

/// The errors of the library.
#[derive(Debug)]
pub enum Error {
    /// The file does not start with the vault magic.
    BadMagic,
    /// The file is of a format version that this program does not read.
    UnsupportedVersion { found: u8, supported: u8 },
    /// The file is shorter than a vault header.
    Truncated,
    /// Wrong password, altered file or altered header parameters; on purpose
    /// not told apart.
    Unauthenticated,
    /// The key derivation refused its parameters.
    BadKdfParams(String),
    /// No entry has the id.
    EntryNotFound,
    /// The random source of the system failed.
    Random(String),
    /// The decrypted content is not a vault document.
    Json(String),
    /// Reading or writing a file failed.
    Io(String),
}

/// An [`Error`] with its texts as sequences of characters.
pub enum ErrorView {
    BadMagic,
    UnsupportedVersion { found: u8, supported: u8 },
    Truncated,
    Unauthenticated,
    BadKdfParams(Seq<char>),
    EntryNotFound,
    Random(Seq<char>),
    Json(Seq<char>),
    Io(Seq<char>),
}

impl View for Error {
    type V = ErrorView;

    open spec fn view(&self) -> ErrorView {
        match self {
            Error::BadMagic => ErrorView::BadMagic,
            Error::UnsupportedVersion { found, supported } => ErrorView::UnsupportedVersion {
                found: *found,
                supported: *supported,
            },
            Error::Truncated => ErrorView::Truncated,
            Error::Unauthenticated => ErrorView::Unauthenticated,
            Error::BadKdfParams(t) => ErrorView::BadKdfParams(t@),
            Error::EntryNotFound => ErrorView::EntryNotFound,
            Error::Random(t) => ErrorView::Random(t@),
            Error::Json(t) => ErrorView::Json(t@),
            Error::Io(t) => ErrorView::Io(t@),
        }
    }
}

/// A result with both its sides taken by their views.
pub open spec fn outcome<T: View>(r: Result<T, Error>) -> Result<T::V, ErrorView> {
    match r {
        Ok(t) => Ok(t@),
        Err(e) => Err(e@),
    }
}

/// The text shown to the user for an error.
pub open spec fn message_text(e: ErrorView) -> Seq<char> {
    match e {
        ErrorView::BadMagic => "不是有效的 Lokal 保险库文件"@,
        ErrorView::UnsupportedVersion { found, supported } => "保险库格式版本 "@ + decimal(
            found as nat,
        ) + " 不受支持（本程序支持 "@ + decimal(supported as nat) + "）"@,
        ErrorView::Truncated => "保险库文件已损坏或被截断"@,
        ErrorView::Unauthenticated => "无法解锁保险库：口令错误或文件已被篡改"@,
        ErrorView::BadKdfParams(t) => "KDF 参数非法："@ + t,
        ErrorView::EntryNotFound => "找不到条目"@,
        ErrorView::Random(t) => "系统随机源不可用："@ + t,
        ErrorView::Json(t) => "保险库内容不是合法 JSON："@ + t,
        ErrorView::Io(t) => "文件读写失败："@ + t,
    }
}

impl Error {
    /// The text shown to the user.
    pub fn message(&self) -> (r: String)
        ensures
            r@ == message_text(self@),
            self is BadMagic ==> r@ == "不是有效的 Lokal 保险库文件"@,
            self is Truncated ==> r@ == "保险库文件已损坏或被截断"@,
            self is Unauthenticated ==> r@ == "无法解锁保险库：口令错误或文件已被篡改"@,
            self is EntryNotFound ==> r@ == "找不到条目"@,
            self matches Error::BadKdfParams(t) ==> r@ == "KDF 参数非法："@ + t@,
            self matches Error::Random(t) ==> r@ == "系统随机源不可用："@ + t@,
            self matches Error::Json(t) ==> r@ == "保险库内容不是合法 JSON："@ + t@,
            self matches Error::Io(t) ==> r@ == "文件读写失败："@ + t@,
    {
        match self {
            Error::BadMagic => "不是有效的 Lokal 保险库文件".to_owned(),
            Error::UnsupportedVersion { found, supported } => {
                let mut s = "保险库格式版本 ".to_owned();
                push_padded(&mut s, *found as u64, 1);
                push_text(&mut s, " 不受支持（本程序支持 ");
                push_padded(&mut s, *supported as u64, 1);
                push_text(&mut s, "）");
                s
            },
            Error::Truncated => "保险库文件已损坏或被截断".to_owned(),
            Error::Unauthenticated => "无法解锁保险库：口令错误或文件已被篡改".to_owned(),
            Error::BadKdfParams(t) => joined("KDF 参数非法：", t.as_str()),
            Error::EntryNotFound => "找不到条目".to_owned(),
            Error::Random(t) => joined("系统随机源不可用：", t.as_str()),
            Error::Json(t) => joined("保险库内容不是合法 JSON：", t.as_str()),
            Error::Io(t) => joined("文件读写失败：", t.as_str()),
        }
    }
}

/// A result is a success where its outcome is, and its error is of the kind that its outcome
/// says, with the same text.
pub proof fn outcomes_say_what_results_are<T: View>(r: Result<T, Error>)
    ensures
        r is Ok <==> outcome(r) is Ok,
        r matches Ok(t) ==> outcome(r) == Ok::<T::V, ErrorView>(t@),
        r matches Err(e) ==> {
            &&& outcome(r) == Err::<T::V, ErrorView>(e@)
            &&& e is BadMagic <==> e@ is BadMagic
            &&& e is UnsupportedVersion <==> e@ is UnsupportedVersion
            &&& e is Truncated <==> e@ is Truncated
            &&& e is Unauthenticated <==> e@ is Unauthenticated
            &&& e is BadKdfParams <==> e@ is BadKdfParams
            &&& e is EntryNotFound <==> e@ is EntryNotFound
            &&& e is Random <==> e@ is Random
            &&& e is Json <==> e@ is Json
            &&& e is Io <==> e@ is Io
            &&& e matches Error::BadKdfParams(t) ==> e@ == ErrorView::BadKdfParams(t@)
            &&& e matches Error::Random(t) ==> e@ == ErrorView::Random(t@)
            &&& e matches Error::Json(t) ==> e@ == ErrorView::Json(t@)
            &&& e matches Error::Io(t) ==> e@ == ErrorView::Io(t@)
        },
{
}

/// A message ends with the text that came with the error, and is otherwise the same for
/// every text.
pub proof fn messages_carry_the_reason(t: Seq<char>, u: Seq<char>)
    ensures
        message_text(ErrorView::BadKdfParams(t + u)) == message_text(ErrorView::BadKdfParams(t))
            + u,
        message_text(ErrorView::Random(t + u)) == message_text(ErrorView::Random(t)) + u,
        message_text(ErrorView::Json(t + u)) == message_text(ErrorView::Json(t)) + u,
        message_text(ErrorView::Io(t + u)) == message_text(ErrorView::Io(t)) + u,
{
    assert(message_text(ErrorView::BadKdfParams(t + u)) =~= message_text(
        ErrorView::BadKdfParams(t),
    ) + u);
    assert(message_text(ErrorView::Random(t + u)) =~= message_text(ErrorView::Random(t)) + u);
    assert(message_text(ErrorView::Json(t + u)) =~= message_text(ErrorView::Json(t)) + u);
    assert(message_text(ErrorView::Io(t + u)) =~= message_text(ErrorView::Io(t)) + u);
}

} // verus!
