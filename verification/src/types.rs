//! Shared data model: languages, task status, scheduled task records and
//! session data, together with their mathematical views.

use vstd::prelude::*;

verus! {

/// Display language attached to a chat; pass-through metadata for the core.
#[derive(Clone, Copy, PartialEq, Eq, Structural, Debug)]
pub enum Lang {
    En,
    Es,
}

impl Lang {
    /// The two-letter code used in the persisted representation.
    pub open spec fn code_spec(self) -> Seq<char> {
        match self {
            Lang::En => "en"@,
            Lang::Es => "es"@,
        }
    }

    pub fn code(self) -> (r: &'static str)
        ensures
            r@ == self.code_spec(),
    {
        match self {
            Lang::En => "en",
            Lang::Es => "es",
        }
    }
}

/// Lifecycle state of a scheduled task. A task starts `Pending` and moves
/// exactly once to `Executed` or `Failed`; cancellation is recorded as
/// `Failed` with a sentinel error text.
#[derive(Clone, Copy, PartialEq, Eq, Structural, Debug)]
pub enum TaskStatus {
    Pending,
    Executed,
    Failed,
}

/// One requested future action. Instants are UTC milliseconds.
#[derive(Debug)]
pub struct ScheduledTask {
    pub id: String,
    pub user_id: i64,
    pub lang: Lang,
    pub locale: String,
    pub time_zone: String,
    pub scheduled_time: i64,
    pub created_at: i64,
    pub executed_at: Option<i64>,
    pub status: TaskStatus,
    pub error: Option<String>,
}

/// Mathematical view of a task record: strings as character sequences,
/// machine integers as unbounded integers.
#[verifier::ext_equal]
pub struct TaskV {
    pub id: Seq<char>,
    pub user_id: int,
    pub lang: Lang,
    pub locale: Seq<char>,
    pub time_zone: Seq<char>,
    pub scheduled_time: int,
    pub created_at: int,
    pub executed_at: Option<int>,
    pub status: TaskStatus,
    pub error: Option<Seq<char>>,
}

impl View for ScheduledTask {
    type V = TaskV;

    open spec fn view(&self) -> TaskV {
        TaskV {
            id: self.id@,
            user_id: self.user_id as int,
            lang: self.lang,
            locale: self.locale@,
            time_zone: self.time_zone@,
            scheduled_time: self.scheduled_time as int,
            created_at: self.created_at as int,
            executed_at: match self.executed_at {
                Some(t) => Some(t as int),
                None => None,
            },
            status: self.status,
            error: match self.error {
                Some(ref e) => Some(e@),
                None => None,
            },
        }
    }
}

impl Clone for ScheduledTask {
    fn clone(&self) -> (res: Self)
        ensures
            res == *self,
    {
        ScheduledTask {
            id: self.id.clone(),
            user_id: self.user_id,
            lang: self.lang,
            locale: self.locale.clone(),
            time_zone: self.time_zone.clone(),
            scheduled_time: self.scheduled_time,
            created_at: self.created_at,
            executed_at: self.executed_at,
            status: self.status,
            error: match self.error {
                Some(ref e) => Some(e.clone()),
                None => None,
            },
        }
    }
}

/// The remote site's cookies held by a session: the values replayed on each
/// request, the cookie domain, and the session's freshness deadline in UTC
/// milliseconds.
#[derive(Debug)]
pub struct Cookies {
    pub geo: String,
    pub hcmex: String,
    pub device_id: String,
    pub domain: String,
    pub expires: i64,
}

impl Clone for Cookies {
    fn clone(&self) -> (res: Self)
        ensures
            res == *self,
    {
        Cookies {
            geo: self.geo.clone(),
            hcmex: self.hcmex.clone(),
            device_id: self.device_id.clone(),
            domain: self.domain.clone(),
            expires: self.expires,
        }
    }
}

/// One session record binding a user to a replayable credential and a
/// freshness deadline. Location display data is opaque to the core and kept
/// outside it.
#[derive(Debug)]
pub struct UserData {
    pub user_id: i64,
    pub time_zone: Option<String>,
    pub cookies: Cookies,
}

impl Clone for UserData {
    fn clone(&self) -> (res: Self)
        ensures
            res == *self,
    {
        UserData {
            user_id: self.user_id,
            time_zone: match self.time_zone {
                Some(ref t) => Some(t.clone()),
                None => None,
            },
            cookies: self.cookies.clone(),
        }
    }
}

/// Why a scheduling request was rejected: the zone name did not resolve, or
/// the requested wall-clock time is not constructible in that zone.
#[derive(Clone, Copy, PartialEq, Eq, Structural, Debug)]
pub enum SchedulingError {
    UnknownTimeZone,
    InvalidTime,
}

} // verus!
