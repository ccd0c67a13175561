use vstd::prelude::*;

use crate::db::DbError;
use crate::text::{append_chars, chars_of, string_of};

verus! {

/// A search hit: a stock's code, its market (always `"CN"` here) and name.
#[derive(Debug, Clone)]
pub struct StockBrief {
    pub code: String,
    pub market: String,
    pub name: String,
}

impl View for StockBrief {
    type V = (Seq<char>, Seq<char>, Seq<char>);

    open spec fn view(&self) -> (Seq<char>, Seq<char>, Seq<char>) {
        (self.code@, self.market@, self.name@)
    }
}

/// Why a command failed, as the UI is told.
#[derive(Debug)]
pub enum AppError {
    /// The store refused or failed.
    Database(DbError),
    /// A request to `origin` failed.
    Network { origin: String, message: String },
    /// No usable data source.
    DataSourceUnavailable(String),
    /// The source cannot do this.
    Unsupported(String),
    /// Nothing found.
    NotFound(String),
    /// A reply from `origin` could not be read.
    Parse { origin: String, message: String },
}

impl AppError {
    /// The text the UI shows for the error.
    pub open spec fn message_spec(self) -> Seq<char> {
        match self {
            AppError::Database(e) => "数据库错误: "@ + e.message_spec(),
            AppError::Network { origin, message } => "网络请求失败 ("@ + origin@ + "): "@ + message@,
            AppError::DataSourceUnavailable(s) => "数据源不可用: "@ + s@,
            AppError::Unsupported(s) => "不支持的操作: "@ + s@,
            AppError::NotFound(s) => "未找到: "@ + s@,
            AppError::Parse { origin, message } => "数据解析失败 ("@ + origin@ + "): "@ + message@,
        }
    }

    /// A failed request to `origin`.
    pub fn network(origin: &str, message: &str) -> (r: AppError)
        ensures
            r matches AppError::Network { origin: o, message: m } && o@ == origin@ && m@ == message@,
    {
        AppError::Network { origin: origin.to_owned(), message: message.to_owned() }
    }

    /// An unreadable reply from `origin`.
    pub fn parse(origin: &str, message: &str) -> (r: AppError)
        ensures
            r matches AppError::Parse { origin: o, message: m } && o@ == origin@ && m@ == message@,
    {
        AppError::Parse { origin: origin.to_owned(), message: message.to_owned() }
    }

    /// The text the UI shows for the error.
    pub fn message(&self) -> (r: String)
        ensures
            r@ == self.message_spec(),
    {
        let mut m: Vec<char>;
        match self {
            AppError::Database(e) => {
                m = chars_of("数据库错误: ");
                append_chars(&mut m, e.message().as_str());
            },
            AppError::Network { origin, message } => {
                m = chars_of("网络请求失败 (");
                append_chars(&mut m, origin.as_str());
                append_chars(&mut m, "): ");
                append_chars(&mut m, message.as_str());
            },
            AppError::DataSourceUnavailable(s) => {
                m = chars_of("数据源不可用: ");
                append_chars(&mut m, s.as_str());
            },
            AppError::Unsupported(s) => {
                m = chars_of("不支持的操作: ");
                append_chars(&mut m, s.as_str());
            },
            AppError::NotFound(s) => {
                m = chars_of("未找到: ");
                append_chars(&mut m, s.as_str());
            },
            AppError::Parse { origin, message } => {
                m = chars_of("数据解析失败 (");
                append_chars(&mut m, origin.as_str());
                append_chars(&mut m, "): ");
                append_chars(&mut m, message.as_str());
            },
        }
        string_of(&m)
    }
}

/// What an update check found, as the update dialog shows it.
#[derive(Debug, Clone)]
pub struct UpdateInfo {
    pub current_version: String,
    pub latest_version: String,
    pub release_date: String,
    pub notes: String,
    pub release_url: String,
    pub download_size: Option<u64>,
}

/// Where the release notes of every version live.
pub const RELEASE_TAG_BASE: &'static str = "https://github.com/Leaderxin/quant-desktop/releases/tag/v";

/// `version` without one leading `v`.
pub open spec fn strip_v(version: Seq<char>) -> Seq<char> {
    if version.len() > 0 && version[0] == 'v' { version.drop_first() } else { version }
}

/// The release page of `version` (written with or without a leading `v`).
pub open spec fn release_url_spec(version: Seq<char>) -> Seq<char> {
    RELEASE_TAG_BASE@ + strip_v(version)
}

/// The release page of `version` (written with or without a leading `v`).
pub fn release_url(version: &str) -> (r: String)
    ensures
        r@ == release_url_spec(version@),
{
    let mut out = chars_of(RELEASE_TAG_BASE);
    let v = chars_of(version);
    let start: usize = if v.len() > 0 && v[0] == 'v' { 1 } else { 0 };
    let ghost base = out@;
    let mut i: usize = start;
    while i < v.len()
        invariant
            start <= i <= v@.len(),
            out@ == base + v@.subrange(start as int, i as int),
        decreases v@.len() - i,
    {
        out.push(v[i]);
        i = i + 1;
        proof {
            assert(out@ =~= base + v@.subrange(start as int, i as int));
        }
    }
    proof {
        assert(v@.subrange(start as int, v@.len() as int) =~= strip_v(version@));
    }
    string_of(&out)
}

impl UpdateInfo {
    /// The record of a found update: no download size is known yet.
    pub fn found(current_version: String, latest_version: String, release_date: String, notes: String) -> (r: UpdateInfo)
        ensures
            r.current_version@ == current_version@,
            r.latest_version@ == latest_version@,
            r.release_date@ == release_date@,
            r.notes@ == notes@,
            r.release_url@ == release_url_spec(latest_version@),
            r.download_size is None,
    {
        let url = release_url(latest_version.as_str());
        UpdateInfo { current_version, latest_version, release_date, notes, release_url: url, download_size: None }
    }
}

} // verus!
