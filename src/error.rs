use vstd::prelude::*;

verus! {

/// The ways in which reading or decoding a request can fail.
#[derive(Clone, Copy, Debug, PartialEq, Eq, Structural)]
pub enum FailKind {
    HeaderTooLarge,
    HeaderReadFailed,
    InvalidHeaderEncoding,
    BodyTooLarge,
    BodyReadFailed,
    InvalidBodyEncoding,
    MissingBoundary,
    MissingFieldName,
    MalformedPart,
    MalformedRequestLine,
}

/// A failure of the request pipeline; its message becomes the body of a
/// `400 Bad Request` response.
#[derive(Clone, Copy, Debug, PartialEq, Eq, Structural)]
pub struct Fail {
    pub kind: FailKind,
}

/// The human-readable message of each failure kind.
pub open spec fn fail_message(kind: FailKind) -> Seq<char> {
    match kind {
        FailKind::HeaderTooLarge => "请求头大小超出限制"@,
        FailKind::HeaderReadFailed => "读取请求头失败"@,
        FailKind::InvalidHeaderEncoding => "request header is not valid UTF-8"@,
        FailKind::BodyTooLarge => "请求体大小超出限制"@,
        FailKind::BodyReadFailed => "请求体读取失败"@,
        FailKind::InvalidBodyEncoding => "form body is not valid UTF-8"@,
        FailKind::MissingBoundary => "没有有效的boundary"@,
        FailKind::MissingFieldName => "表单内容没有name属性"@,
        FailKind::MalformedPart => "表单内容损坏"@,
        FailKind::MalformedRequestLine => "获取请求行失败"@,
    }
}

impl Fail {
    pub fn new(kind: FailKind) -> (r: Fail)
        ensures
            r.kind == kind,
    {
        Fail { kind }
    }

    /// An `Err` carrying a failure of the given kind.
    pub fn from<T>(kind: FailKind) -> (r: Result<T, Fail>)
        ensures
            r == Err::<T, Fail>(Fail { kind }),
    {
        Err(Fail::new(kind))
    }

    pub fn kind(&self) -> (r: FailKind)
        ensures
            r == self.kind,
    {
        self.kind
    }

    pub fn message(&self) -> (r: String)
        ensures
            r@ == fail_message(self.kind),
    {
        let text = match self.kind {
            FailKind::HeaderTooLarge => "请求头大小超出限制",
            FailKind::HeaderReadFailed => "读取请求头失败",
            FailKind::InvalidHeaderEncoding => "request header is not valid UTF-8",
            FailKind::BodyTooLarge => "请求体大小超出限制",
            FailKind::BodyReadFailed => "请求体读取失败",
            FailKind::InvalidBodyEncoding => "form body is not valid UTF-8",
            FailKind::MissingBoundary => "没有有效的boundary",
            FailKind::MissingFieldName => "表单内容没有name属性",
            FailKind::MalformedPart => "表单内容损坏",
            FailKind::MalformedRequestLine => "获取请求行失败",
        };
        String::from_str(text)
    }
}

} // verus!
