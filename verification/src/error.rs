//! The library's errors.
use vstd::prelude::*;

use crate::text::joined;

verus! {

/// What can go wrong. Each variant carries the detail that its message ends in.
#[derive(Debug)]
pub enum Error {
    Io(String),
    Json(String),
    Format(String),
    MaterialNotFound(String),
    RecipeNotFound(String),
    Planning(String),
}

impl Error {
    /// What the message of an error starts with.
    pub open spec fn prefix(self) -> Seq<char> {
        match self {
            Error::Io(_) => "IO 错误: "@,
            Error::Json(_) => "JSON 解析错误: "@,
            Error::Format(_) => "数据格式错误: "@,
            Error::MaterialNotFound(_) => "未找到材料: "@,
            Error::RecipeNotFound(_) => "未找到配方: "@,
            Error::Planning(_) => "规划失败: "@,
        }
    }

    /// What an error is about.
    pub open spec fn detail(self) -> Seq<char> {
        match self {
            Error::Io(d) => d@,
            Error::Json(d) => d@,
            Error::Format(d) => d@,
            Error::MaterialNotFound(d) => d@,
            Error::RecipeNotFound(d) => d@,
            Error::Planning(d) => d@,
        }
    }

    /// The message that is shown to the user.
    pub fn message(&self) -> (r: String)
        ensures
            r@ == self.prefix() + self.detail(),
    {
        match self {
            Error::Io(d) => joined("IO 错误: ", d.as_str()),
            Error::Json(d) => joined("JSON 解析错误: ", d.as_str()),
            Error::Format(d) => joined("数据格式错误: ", d.as_str()),
            Error::MaterialNotFound(d) => joined("未找到材料: ", d.as_str()),
            Error::RecipeNotFound(d) => joined("未找到配方: ", d.as_str()),
            Error::Planning(d) => joined("规划失败: ", d.as_str()),
        }
    }
}

} // verus!
