//! The failure taxonomy of the pipeline. Every failure is a value returned to
//! the caller; the verified functions never panic.

use vstd::prelude::*;
use vstd::string::StringExecFns;

verus! {

/// One failure of the pipeline, with enough context to render a message.
#[derive(Debug, Clone, PartialEq, Eq)]
pub enum Error {
    /// The workbook could not be opened.
    ExcelRead,
    /// The workbook has no sheet, or no data rows below the header.
    EmptyFile,
    /// The header does not name each of the three required columns exactly
    /// once.
    InvalidSheetFormat,
    /// An item-code cell was rejected by the domain-code parser.
    InvalidItemCode,
    /// A size-code cell was rejected by the domain-code parser.
    InvalidSizeCode,
    /// A measurement token is not a well-formed `name:value` pair; carries
    /// the offending text as it stood when it was rejected.
    InvalidSizeText { error_line: String },
    /// A measurement cell is empty or holds only whitespace.
    EmptySizeText,
    /// A row's measurement names differ from those of the first row of its
    /// item; carries the offending measurement cell text. Rows of one item
    /// must agree on their name sequence because the emitted table aligns
    /// values to the header by position; mismatched rows are rejected rather
    /// than padded or reordered.
    MismatchedSizeNames { error_line: String },
    /// The remote translation service answered with an error; carries the
    /// upstream message.
    TranslateResponse(String),
    /// The remote translation service could not be reached or authenticated.
    TranslateUnavailable,
    /// A configuration or glossary source could not be read; carries a
    /// description.
    SystemIO(String),
}

impl Error {
    /// The user-facing message for this failure.
    pub fn message(&self) -> (r: String)
        ensures
            match self {
                Error::ExcelRead => r@ == "请选择需要打开的Excel文件"@,
                Error::EmptyFile => r@ == "文件是空文件"@,
                Error::InvalidSheetFormat => r@ == "请确认Excel文件有[品番][採寸]和[SZ]列"@,
                Error::InvalidItemCode => r@ == "品番格式错误"@,
                Error::InvalidSizeCode => r@ == "SZ格式错误"@,
                Error::InvalidSizeText { error_line } => r@ == "採寸格式错误:"@ + error_line@,
                Error::EmptySizeText => r@ == "[採寸]列不能是空栏"@,
                Error::MismatchedSizeNames { error_line } => r@ == "採寸列名不一致:"@
                    + error_line@,
                Error::TranslateResponse(message) => r@ == "翻译失败:"@ + message@,
                Error::TranslateUnavailable => r@ == "翻译失败:无法连接翻译服务"@,
                Error::SystemIO(_) => r@ == "设定文件读取错误"@,
            },
    {
        match self {
            Error::ExcelRead => String::from_str("请选择需要打开的Excel文件"),
            Error::EmptyFile => String::from_str("文件是空文件"),
            Error::InvalidSheetFormat => String::from_str("请确认Excel文件有[品番][採寸]和[SZ]列"),
            Error::InvalidItemCode => String::from_str("品番格式错误"),
            Error::InvalidSizeCode => String::from_str("SZ格式错误"),
            Error::InvalidSizeText { error_line } => String::from_str("採寸格式错误:").concat(
                error_line.as_str(),
            ),
            Error::EmptySizeText => String::from_str("[採寸]列不能是空栏"),
            Error::MismatchedSizeNames { error_line } => String::from_str("採寸列名不一致:").concat(
                error_line.as_str(),
            ),
            Error::TranslateResponse(message) => String::from_str("翻译失败:").concat(
                message.as_str(),
            ),
            Error::TranslateUnavailable => String::from_str("翻译失败:无法连接翻译服务"),
            Error::SystemIO(_) => String::from_str("设定文件读取错误"),
        }
    }
}

} // verus!
