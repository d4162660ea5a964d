//! The failure values that ingestion surfaces.
//!
//! Every fatal condition carries the counts a caller needs to diagnose the
//! file without re-running; the text of each message is fixed per variant.

use vstd::prelude::*;

verus! {

/// Why a file was rejected.
#[derive(Debug, Clone, Copy, PartialEq, Eq, Structural)]
pub enum ProcessError {
    /// No non-empty line at all.
    EmptyFile,
    /// The first non-empty line is not the subtitle header.
    FirstLineNotHeader,
    /// The last line looks like a parent-title row but no repeated header
    /// stands before it.
    MissingRepeatedHeader,
    /// Too few non-empty lines to judge the tail block.
    ContentTooShort,
    /// A second subtitle header stands somewhere other than the
    /// second-to-last non-empty line.
    RepeatedHeaderMisplaced,
    /// The repeated header is in place but the last line is no parent-title
    /// row.
    LastLineNotParentTitle,
    /// The subtitle header occurs more than twice.
    TooManyHeaderLines,
    /// The parent-title row cannot be aligned with the headers even after
    /// padding.
    OverlayColumnMismatch { headers_len: usize, parent_len: usize },
    /// The reconstructed body was not parseable as CSV.
    CsvUnreadable,
    /// The cached drop position no longer fits the row.
    DropIndexOutOfBounds { expected: usize, actual: usize, drop_idx: usize },
    /// A row's width is off by more than the one tolerated column.
    ColumnCountMismatch { expected: usize, actual: usize },
}

/// The diagnostic text of each error.
pub open spec fn spec_message(e: ProcessError) -> Seq<char> {
    match e {
        ProcessError::EmptyFile => "CSV 文件为空"@,
        ProcessError::FirstLineNotHeader => "CSV 文件不符合预期：首个非空行不是子标题表头（Date,Time,...）"@,
        ProcessError::MissingRepeatedHeader => "检测到疑似父标题行（Date/Time 为空）但未检测到倒数第二行的重复表头；仅支持：只在头部出现表头，或头部+尾部两行（重复表头+父标题行）"@,
        ProcessError::ContentTooShort => "CSV 文件内容不足，无法判定尾部分组元数据"@,
        ProcessError::RepeatedHeaderMisplaced => "检测到多次子标题表头，但重复表头不在倒数第二个非空行；仅支持：表头只在头部出现，或头部+尾部两行（重复表头+父标题行）"@,
        ProcessError::LastLineNotParentTitle => "检测到倒数第二行是重复表头，但最后一行不是父标题行（Date/Time 为空）"@,
        ProcessError::TooManyHeaderLines => "检测到多次子标题表头（Date,Time,...）出现次数超过 2；仅支持：表头只在头部出现，或头部+尾部两行（重复表头+父标题行）"@,
        ProcessError::OverlayColumnMismatch { .. } => "父标题行列数无法对齐"@,
        ProcessError::CsvUnreadable => "CSV 内容无法解析"@,
        ProcessError::DropIndexOutOfBounds { .. } => "记录列数异常：推断丢弃位置越界"@,
        ProcessError::ColumnCountMismatch { .. } => "CSV 记录列数不一致；目前仅支持相差 1 列的传感器动态增量情况"@,
    }
}

impl ProcessError {
    /// The diagnostic text of this error.
    pub fn message(&self) -> (r: String)
        ensures
            r@ == spec_message(*self),
    {
        match self {
            ProcessError::EmptyFile => String::from_str("CSV 文件为空"),
            ProcessError::FirstLineNotHeader => String::from_str(
                "CSV 文件不符合预期：首个非空行不是子标题表头（Date,Time,...）",
            ),
            ProcessError::MissingRepeatedHeader => String::from_str(
                "检测到疑似父标题行（Date/Time 为空）但未检测到倒数第二行的重复表头；仅支持：只在头部出现表头，或头部+尾部两行（重复表头+父标题行）",
            ),
            ProcessError::ContentTooShort => String::from_str(
                "CSV 文件内容不足，无法判定尾部分组元数据",
            ),
            ProcessError::RepeatedHeaderMisplaced => String::from_str(
                "检测到多次子标题表头，但重复表头不在倒数第二个非空行；仅支持：表头只在头部出现，或头部+尾部两行（重复表头+父标题行）",
            ),
            ProcessError::LastLineNotParentTitle => String::from_str(
                "检测到倒数第二行是重复表头，但最后一行不是父标题行（Date/Time 为空）",
            ),
            ProcessError::TooManyHeaderLines => String::from_str(
                "检测到多次子标题表头（Date,Time,...）出现次数超过 2；仅支持：表头只在头部出现，或头部+尾部两行（重复表头+父标题行）",
            ),
            ProcessError::OverlayColumnMismatch { .. } => String::from_str(
                "父标题行列数无法对齐",
            ),
            ProcessError::CsvUnreadable => String::from_str("CSV 内容无法解析"),
            ProcessError::DropIndexOutOfBounds { .. } => String::from_str(
                "记录列数异常：推断丢弃位置越界",
            ),
            ProcessError::ColumnCountMismatch { .. } => String::from_str(
                "CSV 记录列数不一致；目前仅支持相差 1 列的传感器动态增量情况",
            ),
        }
    }
}

} // verus!
