//! Error kinds, server result codes and the error chain.

use vstd::prelude::*;

verus! {

/// A result code that the server puts in the header of each reply.
#[derive(Debug, Clone, Copy, PartialEq, Eq, Structural)]
pub enum ResultCode {
    Success,
    ServerError,
    KeyNotFoundError,
    GenerationError,
    ParameterError,
    KeyExistsError,
    BinExistsError,
    ClusterKeyMismatch,
    ServerMemError,
    Timeout,
    AlwaysForbidden,
    PartitionUnavailable,
    BinTypeError,
    RecordTooBig,
    KeyBusy,
    ScanAbort,
    UnsupportedFeature,
    BinNotFound,
    DeviceOverload,
    KeyMismatch,
    InvalidNamespace,
    BinNameTooLong,
    FailForbidden,
    ElementNotFound,
    ElementExists,
    EnterpriseOnly,
    OpNotApplicable,
    FilteredOut,
    LostConflict,
    QueryEnd,
    SecurityNotSupported,
    SecurityNotEnabled,
    SecuritySchemeNotSupported,
    InvalidCommand,
    InvalidField,
    IllegalState,
    InvalidUser,
    UserAlreadyExists,
    InvalidPassword,
    ExpiredPassword,
    ForbiddenPassword,
    InvalidCredential,
    InvalidRole,
    RoleAlreadyExists,
    InvalidPrivilege,
    NotAuthenticated,
    RoleViolation,
    UdfBadResponse,
    LargeItemNotFound,
    BatchDisabled,
    BatchMaxRequestsExceeded,
    BatchQueuesFull,
    GeoInvalidGeoJson,
    IndexFound,
    IndexNotFound,
    IndexOutOfMemory,
    IndexNotReadable,
    IndexGeneric,
    IndexNameMaxLen,
    IndexMaxCount,
    QueryAborted,
    QueryQueueFull,
    QueryTimeout,
    QueryGeneric,
    QueryNetioErr,
    QueryDuplicate,
    /// A code that this client does not name.
    Unknown(u8),
}

/// The wire byte of a result code.
pub open spec fn result_code_byte(rc: ResultCode) -> u8 {
    match rc {
        ResultCode::Success => 0,
        ResultCode::ServerError => 1,
        ResultCode::KeyNotFoundError => 2,
        ResultCode::GenerationError => 3,
        ResultCode::ParameterError => 4,
        ResultCode::KeyExistsError => 5,
        ResultCode::BinExistsError => 6,
        ResultCode::ClusterKeyMismatch => 7,
        ResultCode::ServerMemError => 8,
        ResultCode::Timeout => 9,
        ResultCode::AlwaysForbidden => 10,
        ResultCode::PartitionUnavailable => 11,
        ResultCode::BinTypeError => 12,
        ResultCode::RecordTooBig => 13,
        ResultCode::KeyBusy => 14,
        ResultCode::ScanAbort => 15,
        ResultCode::UnsupportedFeature => 16,
        ResultCode::BinNotFound => 17,
        ResultCode::DeviceOverload => 18,
        ResultCode::KeyMismatch => 19,
        ResultCode::InvalidNamespace => 20,
        ResultCode::BinNameTooLong => 21,
        ResultCode::FailForbidden => 22,
        ResultCode::ElementNotFound => 23,
        ResultCode::ElementExists => 24,
        ResultCode::EnterpriseOnly => 25,
        ResultCode::OpNotApplicable => 26,
        ResultCode::FilteredOut => 27,
        ResultCode::LostConflict => 28,
        ResultCode::QueryEnd => 52,
        ResultCode::SecurityNotSupported => 53,
        ResultCode::SecurityNotEnabled => 54,
        ResultCode::SecuritySchemeNotSupported => 55,
        ResultCode::InvalidCommand => 56,
        ResultCode::InvalidField => 57,
        ResultCode::IllegalState => 58,
        ResultCode::InvalidUser => 60,
        ResultCode::UserAlreadyExists => 61,
        ResultCode::InvalidPassword => 62,
        ResultCode::ExpiredPassword => 63,
        ResultCode::ForbiddenPassword => 64,
        ResultCode::InvalidCredential => 65,
        ResultCode::InvalidRole => 70,
        ResultCode::RoleAlreadyExists => 71,
        ResultCode::InvalidPrivilege => 72,
        ResultCode::NotAuthenticated => 80,
        ResultCode::RoleViolation => 81,
        ResultCode::UdfBadResponse => 100,
        ResultCode::LargeItemNotFound => 125,
        ResultCode::BatchDisabled => 150,
        ResultCode::BatchMaxRequestsExceeded => 151,
        ResultCode::BatchQueuesFull => 152,
        ResultCode::GeoInvalidGeoJson => 160,
        ResultCode::IndexFound => 200,
        ResultCode::IndexNotFound => 201,
        ResultCode::IndexOutOfMemory => 202,
        ResultCode::IndexNotReadable => 203,
        ResultCode::IndexGeneric => 204,
        ResultCode::IndexNameMaxLen => 205,
        ResultCode::IndexMaxCount => 206,
        ResultCode::QueryAborted => 210,
        ResultCode::QueryQueueFull => 211,
        ResultCode::QueryTimeout => 212,
        ResultCode::QueryGeneric => 213,
        ResultCode::QueryNetioErr => 214,
        ResultCode::QueryDuplicate => 215,
        ResultCode::Unknown(b) => b,
    }
}

/// The bytes that this client has a name for.
pub open spec fn is_named_result_code(b: u8) -> bool {
    b == 0 || b == 1 || b == 2 || b == 3 || b == 4 || b == 5 || b == 6 || b == 7 || b == 8 || b == 9 || b == 10 || b == 11 || b == 12 || b == 13 || b == 14 || b == 15 || b == 16 || b == 17 || b == 18 || b == 19 || b == 20 || b == 21 || b == 22 || b == 23 || b == 24 || b == 25 || b == 26 || b == 27 || b == 28 || b == 52 || b == 53 || b == 54 || b == 55 || b == 56 || b == 57 || b == 58 || b == 60 || b == 61 || b == 62 || b == 63 || b == 64 || b == 65 || b == 70 || b == 71 || b == 72 || b == 80 || b == 81 || b == 100 || b == 125 || b == 150 || b == 151 || b == 152 || b == 160 || b == 200 || b == 201 || b == 202 || b == 203 || b == 204 || b == 205 || b == 206 || b == 210 || b == 211 || b == 212 || b == 213 || b == 214 || b == 215
}

impl ResultCode {
    /// The result code that the wire byte `b` stands for.
    pub fn from_u8(b: u8) -> (r: ResultCode)
        ensures
            result_code_byte(r) == b,
            r is Unknown <==> !is_named_result_code(b),
    {
        match b {
            0 => ResultCode::Success,
            1 => ResultCode::ServerError,
            2 => ResultCode::KeyNotFoundError,
            3 => ResultCode::GenerationError,
            4 => ResultCode::ParameterError,
            5 => ResultCode::KeyExistsError,
            6 => ResultCode::BinExistsError,
            7 => ResultCode::ClusterKeyMismatch,
            8 => ResultCode::ServerMemError,
            9 => ResultCode::Timeout,
            10 => ResultCode::AlwaysForbidden,
            11 => ResultCode::PartitionUnavailable,
            12 => ResultCode::BinTypeError,
            13 => ResultCode::RecordTooBig,
            14 => ResultCode::KeyBusy,
            15 => ResultCode::ScanAbort,
            16 => ResultCode::UnsupportedFeature,
            17 => ResultCode::BinNotFound,
            18 => ResultCode::DeviceOverload,
            19 => ResultCode::KeyMismatch,
            20 => ResultCode::InvalidNamespace,
            21 => ResultCode::BinNameTooLong,
            22 => ResultCode::FailForbidden,
            23 => ResultCode::ElementNotFound,
            24 => ResultCode::ElementExists,
            25 => ResultCode::EnterpriseOnly,
            26 => ResultCode::OpNotApplicable,
            27 => ResultCode::FilteredOut,
            28 => ResultCode::LostConflict,
            52 => ResultCode::QueryEnd,
            53 => ResultCode::SecurityNotSupported,
            54 => ResultCode::SecurityNotEnabled,
            55 => ResultCode::SecuritySchemeNotSupported,
            56 => ResultCode::InvalidCommand,
            57 => ResultCode::InvalidField,
            58 => ResultCode::IllegalState,
            60 => ResultCode::InvalidUser,
            61 => ResultCode::UserAlreadyExists,
            62 => ResultCode::InvalidPassword,
            63 => ResultCode::ExpiredPassword,
            64 => ResultCode::ForbiddenPassword,
            65 => ResultCode::InvalidCredential,
            70 => ResultCode::InvalidRole,
            71 => ResultCode::RoleAlreadyExists,
            72 => ResultCode::InvalidPrivilege,
            80 => ResultCode::NotAuthenticated,
            81 => ResultCode::RoleViolation,
            100 => ResultCode::UdfBadResponse,
            125 => ResultCode::LargeItemNotFound,
            150 => ResultCode::BatchDisabled,
            151 => ResultCode::BatchMaxRequestsExceeded,
            152 => ResultCode::BatchQueuesFull,
            160 => ResultCode::GeoInvalidGeoJson,
            200 => ResultCode::IndexFound,
            201 => ResultCode::IndexNotFound,
            202 => ResultCode::IndexOutOfMemory,
            203 => ResultCode::IndexNotReadable,
            204 => ResultCode::IndexGeneric,
            205 => ResultCode::IndexNameMaxLen,
            206 => ResultCode::IndexMaxCount,
            210 => ResultCode::QueryAborted,
            211 => ResultCode::QueryQueueFull,
            212 => ResultCode::QueryTimeout,
            213 => ResultCode::QueryGeneric,
            214 => ResultCode::QueryNetioErr,
            215 => ResultCode::QueryDuplicate,
            _ => ResultCode::Unknown(b),
        }
    }

    /// The wire byte of this result code.
    pub fn to_u8(&self) -> (r: u8)
        ensures
            r == result_code_byte(*self),
    {
        match self {
            ResultCode::Success => 0,
            ResultCode::ServerError => 1,
            ResultCode::KeyNotFoundError => 2,
            ResultCode::GenerationError => 3,
            ResultCode::ParameterError => 4,
            ResultCode::KeyExistsError => 5,
            ResultCode::BinExistsError => 6,
            ResultCode::ClusterKeyMismatch => 7,
            ResultCode::ServerMemError => 8,
            ResultCode::Timeout => 9,
            ResultCode::AlwaysForbidden => 10,
            ResultCode::PartitionUnavailable => 11,
            ResultCode::BinTypeError => 12,
            ResultCode::RecordTooBig => 13,
            ResultCode::KeyBusy => 14,
            ResultCode::ScanAbort => 15,
            ResultCode::UnsupportedFeature => 16,
            ResultCode::BinNotFound => 17,
            ResultCode::DeviceOverload => 18,
            ResultCode::KeyMismatch => 19,
            ResultCode::InvalidNamespace => 20,
            ResultCode::BinNameTooLong => 21,
            ResultCode::FailForbidden => 22,
            ResultCode::ElementNotFound => 23,
            ResultCode::ElementExists => 24,
            ResultCode::EnterpriseOnly => 25,
            ResultCode::OpNotApplicable => 26,
            ResultCode::FilteredOut => 27,
            ResultCode::LostConflict => 28,
            ResultCode::QueryEnd => 52,
            ResultCode::SecurityNotSupported => 53,
            ResultCode::SecurityNotEnabled => 54,
            ResultCode::SecuritySchemeNotSupported => 55,
            ResultCode::InvalidCommand => 56,
            ResultCode::InvalidField => 57,
            ResultCode::IllegalState => 58,
            ResultCode::InvalidUser => 60,
            ResultCode::UserAlreadyExists => 61,
            ResultCode::InvalidPassword => 62,
            ResultCode::ExpiredPassword => 63,
            ResultCode::ForbiddenPassword => 64,
            ResultCode::InvalidCredential => 65,
            ResultCode::InvalidRole => 70,
            ResultCode::RoleAlreadyExists => 71,
            ResultCode::InvalidPrivilege => 72,
            ResultCode::NotAuthenticated => 80,
            ResultCode::RoleViolation => 81,
            ResultCode::UdfBadResponse => 100,
            ResultCode::LargeItemNotFound => 125,
            ResultCode::BatchDisabled => 150,
            ResultCode::BatchMaxRequestsExceeded => 151,
            ResultCode::BatchQueuesFull => 152,
            ResultCode::GeoInvalidGeoJson => 160,
            ResultCode::IndexFound => 200,
            ResultCode::IndexNotFound => 201,
            ResultCode::IndexOutOfMemory => 202,
            ResultCode::IndexNotReadable => 203,
            ResultCode::IndexGeneric => 204,
            ResultCode::IndexNameMaxLen => 205,
            ResultCode::IndexMaxCount => 206,
            ResultCode::QueryAborted => 210,
            ResultCode::QueryQueueFull => 211,
            ResultCode::QueryTimeout => 212,
            ResultCode::QueryGeneric => 213,
            ResultCode::QueryNetioErr => 214,
            ResultCode::QueryDuplicate => 215,
            ResultCode::Unknown(b) => *b,
        }
    }
}

/// What went wrong.
#[derive(Debug, Clone, PartialEq, Eq)]
pub enum ErrorKind {
    /// A base64 text could not be decoded.
    Base64,
    /// Bytes that should hold UTF-8 text do not.
    InvalidUtf8,
    /// An I/O operation failed.
    Io(String),
    /// A network address could not be parsed.
    ParseAddr,
    /// An integer could not be parsed.
    ParseInt,
    /// A password could not be hashed.
    PwHash,
    /// A free-form message.
    Msg(String),
    /// The server sent a reply that could not be read.
    BadResponse(String),
    /// The cluster could not be reached.
    Connection(String),
    /// An argument given to the client is not valid.
    InvalidArgument(String),
    /// No suitable cluster node was found.
    InvalidNode(String),
    /// The node's connection pool is exhausted.
    NoMoreConnections,
    /// The server answered with a result code other than `Ok`.
    ServerError(ResultCode),
    /// A user-defined function failed on the server.
    UdfBadResponse(String),
    /// An operation ran out of time.
    Timeout(String),
    /// Decoded data does not fit the shape or type that was asked for.
    Derive(String),
}

/// The causes behind an error, nearest first.
#[derive(Debug, Clone, PartialEq, Eq)]
pub struct State {
    pub next_error: Vec<ErrorKind>,
    pub backtrace: NoInternalBacktrace,
}

/// Errors of this client carry no backtrace.
#[derive(Debug, Clone, Copy, PartialEq, Eq)]
pub struct NoInternalBacktrace {}

/// An error: its kind, and the chain of kinds that caused it.
#[derive(Debug, Clone, PartialEq, Eq)]
pub struct Error(pub ErrorKind, pub State);

pub type Result<T> = std::result::Result<T, Error>;

impl State {
    /// A state whose chain starts at `e`.
    pub fn new(e: Error) -> (r: State)
        ensures
            r.next_error@ == seq![e.0] + e.1.next_error@,
    {
        let Error(kind, state) = e;
        let mut next_error = Vec::new();
        next_error.push(kind);
        let mut rest = state.next_error;
        next_error.append(&mut rest);
        State { next_error, backtrace: NoInternalBacktrace {} }
    }

    /// Errors of this client carry no backtrace.
    pub fn backtrace(&self) -> (r: Option<NoInternalBacktrace>)
        ensures
            r is None,
    {
        None
    }
}

/// The kinds of an error, its own first and then its causes.
pub open spec fn chain_of(e: Error) -> Seq<ErrorKind> {
    seq![e.0] + e.1.next_error@
}

impl Error {
    /// An error of the given kind and causes.
    pub fn new(kind: ErrorKind, state: State) -> (r: Error)
        ensures
            r.0 == kind,
            r.1 == state,
    {
        Error(kind, state)
    }

    /// An error of the given kind, with no cause.
    pub fn from_kind(kind: ErrorKind) -> (r: Error)
        ensures
            r.0 == kind,
            r.1.next_error@.len() == 0,
    {
        Error(kind, State { next_error: Vec::new(), backtrace: NoInternalBacktrace {} })
    }

    /// An error of kind `kind` caused by `error`.
    pub fn with_chain(error: Error, kind: ErrorKind) -> (r: Error)
        ensures
            r.0 == kind,
            r.1.next_error@ == chain_of(error),
    {
        Error(kind, State::new(error))
    }

    /// An error of kind `kind` caused by the boxed `error`.
    pub fn with_boxed_chain(error: Box<Error>, kind: ErrorKind) -> (r: Error)
        ensures
            r.0 == kind,
            r.1.next_error@ == chain_of(*error),
    {
        Error(kind, State::new(*error))
    }

    /// The kind of this error.
    pub fn kind(&self) -> (r: &ErrorKind)
        ensures
            *r == self.0,
    {
        &self.0
    }

    /// The kinds along the chain: this error's own, then each cause.
    pub fn iter(&self) -> (r: Vec<&ErrorKind>)
        ensures
            r@.len() == chain_of(*self).len(),
            forall|i: int| 0 <= i < r@.len() ==> *r@[i] == chain_of(*self)[i],
    {
        let mut r: Vec<&ErrorKind> = Vec::new();
        r.push(&self.0);
        let mut i: usize = 0;
        while i < self.1.next_error.len()
            invariant
                i <= self.1.next_error@.len(),
                r@.len() == i + 1,
                forall|j: int| 0 <= j < r@.len() ==> *r@[j] == chain_of(*self)[j],
            decreases self.1.next_error@.len() - i,
        {
            r.push(&self.1.next_error[i]);
            i = i + 1;
        }
        r
    }

    /// Errors of this client carry no backtrace.
    pub fn backtrace(&self) -> (r: Option<NoInternalBacktrace>)
        ensures
            r is None,
    {
        self.1.backtrace()
    }

    /// This error as the cause of a new error of kind `kind`.
    pub fn chain_err(self, kind: ErrorKind) -> (r: Error)
        ensures
            r.0 == kind,
            r.1.next_error@ == chain_of(self),
    {
        Error::with_chain(self, kind)
    }

    /// A short description of the error's kind.
    pub fn description(&self) -> (r: &'static str) {
        match &self.0 {
            ErrorKind::Base64 => "Error decoding Base64 encoded value",
            ErrorKind::InvalidUtf8 => "Error interpreting a sequence of u8 as a UTF-8 encoded string.",
            ErrorKind::Io(_) => "Error during an I/O operation",
            ErrorKind::ParseAddr => "Error parsing an IP or socket address",
            ErrorKind::ParseInt => "Error parsing an integer",
            ErrorKind::PwHash => "Error returned while hashing a password for user authentication",
            ErrorKind::Msg(_) => "Message",
            ErrorKind::BadResponse(_) => "Bad Server Response",
            ErrorKind::Connection(_) => "Network Connection Issue",
            ErrorKind::InvalidArgument(_) => "Invalid Argument",
            ErrorKind::InvalidNode(_) => "Invalid cluster node",
            ErrorKind::NoMoreConnections => "Too many connections",
            ErrorKind::ServerError(_) => "Server Error",
            ErrorKind::UdfBadResponse(_) => "UDF Bad Response",
            ErrorKind::Timeout(_) => "Timeout",
            ErrorKind::Derive(_) => "Deserialization Error",
        }
    }
}

/// Turning a failure into a chained error of a chosen kind.
pub trait ResultExt<T>: Sized {
    /// On failure, an error of kind `kind` whose cause is the failure.
    fn chain_err(self, kind: ErrorKind) -> Result<T>;
}

impl<T> ResultExt<T> for Result<T> {
    fn chain_err(self, kind: ErrorKind) -> (r: Result<T>) {
        match self {
            Ok(v) => Ok(v),
            Err(e) => Err(Error::with_chain(e, kind)),
        }
    }
}

impl<T> ResultExt<T> for Option<T> {
    fn chain_err(self, kind: ErrorKind) -> (r: Result<T>) {
        match self {
            Some(v) => Ok(v),
            None => Err(Error::from_kind(kind)),
        }
    }
}

} // verus!
