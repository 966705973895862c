use vstd::prelude::*;

verus! {

#[verifier::external_type_specification]
#[verifier::external_body]
pub struct ExIoError(std::io::Error);

/// Errors raised by the process guardian.
#[derive(Debug)]
pub enum GuguError {
    ProcessNotFound(String),
    AlreadyRunning(String),
    NotRunning(String),
    StartFailed(String, String),
    ConfigError(String),
    Io(std::io::Error),
    Unauthorized,
    CyclicDependency(String),
}

/// How an error is shown to people. An I/O error shows a fixed prefix
/// followed by the system's own description, which is not modelled here.
pub open spec fn error_text(e: GuguError) -> Seq<char> {
    match e {
        GuguError::ProcessNotFound(n) => "进程 '"@ + n@ + "' 未找到"@,
        GuguError::AlreadyRunning(n) => "进程 '"@ + n@ + "' 已在运行"@,
        GuguError::NotRunning(n) => "进程 '"@ + n@ + "' 未运行"@,
        GuguError::StartFailed(n, m) => "启动进程 '"@ + n@ + "' 失败: "@ + m@,
        GuguError::ConfigError(m) => "配置错误: "@ + m@,
        GuguError::Io(_) => "IO 错误: "@,
        GuguError::Unauthorized => "未授权: 无效或缺失 API Key"@,
        GuguError::CyclicDependency(m) => "循环依赖检测: "@ + m@,
    }
}

/// The system's description of an I/O error.
///
/// Trusted: formats the error with its `Display` implementation from
/// `std::io::Error`. The text comes from the operating system, so nothing is
/// claimed about it.
#[verifier::external_body]
fn io_error_description(e: &std::io::Error) -> (s: String) {
    format!("{e}")
}

fn quoted(prefix: &str, name: &String, suffix: &str) -> (s: String)
    ensures
        s@ == prefix@ + name@ + suffix@,
{
    let mut s = String::from_str(prefix);
    s.append(name.as_str());
    s.append(suffix);
    s
}

impl GuguError {
    pub fn to_string(&self) -> (s: String)
        ensures
            !(self is Io) ==> s@ == error_text(*self),
            self is Io ==> error_text(*self).is_prefix_of(s@),
    {
        match self {
            GuguError::ProcessNotFound(n) => quoted("进程 '", n, "' 未找到"),
            GuguError::AlreadyRunning(n) => quoted("进程 '", n, "' 已在运行"),
            GuguError::NotRunning(n) => quoted("进程 '", n, "' 未运行"),
            GuguError::StartFailed(n, m) => {
                let mut s = quoted("启动进程 '", n, "' 失败: ");
                s.append(m.as_str());
                s
            },
            GuguError::ConfigError(m) => {
                let mut s = String::from_str("配置错误: ");
                s.append(m.as_str());
                s
            },
            GuguError::Io(e) => {
                let mut s = String::from_str("IO 错误: ");
                let d = io_error_description(e);
                s.append(d.as_str());
                s
            },
            GuguError::Unauthorized => String::from_str("未授权: 无效或缺失 API Key"),
            GuguError::CyclicDependency(m) => {
                let mut s = String::from_str("循环依赖检测: ");
                s.append(m.as_str());
                s
            },
        }
    }
}

} // verus!
