//! How far each applet follows POSIX, and the lines of its report.

use vstd::prelude::*;
use crate::text::concat_str;

verus! {

#[derive(Debug, Clone, Copy, PartialEq, Eq, Structural)]
pub enum PosixLevel {
    Full,
    Substantial,
    Partial,
    Unsupported,
}

#[derive(Debug, Clone, Copy, PartialEq, Eq, Structural)]
pub enum AppletCategory {
    Coreutils,
    Shell,
    TextProcessing,
    FileUtilities,
    Network,
    Process,
    System,
    Editors,
    Misc,
}

pub open spec fn posix_level_name(l: PosixLevel) -> Seq<char> {
    match l {
        PosixLevel::Full => "FULL"@,
        PosixLevel::Substantial => "SUBSTANTIAL"@,
        PosixLevel::Partial => "PARTIAL"@,
        PosixLevel::Unsupported => "NONE"@,
    }
}

pub open spec fn category_name(c: AppletCategory) -> Seq<char> {
    match c {
        AppletCategory::Coreutils => "coreutils"@,
        AppletCategory::Shell => "shell"@,
        AppletCategory::TextProcessing => "text-processing"@,
        AppletCategory::FileUtilities => "file-utilities"@,
        AppletCategory::Network => "network"@,
        AppletCategory::Process => "process"@,
        AppletCategory::System => "system"@,
        AppletCategory::Editors => "editors"@,
        AppletCategory::Misc => "misc"@,
    }
}

impl PosixLevel {
    pub fn as_str(self) -> (r: &'static str)
        ensures
            r@ == posix_level_name(self),
    {
        match self {
            PosixLevel::Full => "FULL",
            PosixLevel::Substantial => "SUBSTANTIAL",
            PosixLevel::Partial => "PARTIAL",
            PosixLevel::Unsupported => "NONE",
        }
    }
}

impl AppletCategory {
    pub fn as_str(self) -> (r: &'static str)
        ensures
            r@ == category_name(self),
    {
        match self {
            AppletCategory::Coreutils => "coreutils",
            AppletCategory::Shell => "shell",
            AppletCategory::TextProcessing => "text-processing",
            AppletCategory::FileUtilities => "file-utilities",
            AppletCategory::Network => "network",
            AppletCategory::Process => "process",
            AppletCategory::System => "system",
            AppletCategory::Editors => "editors",
            AppletCategory::Misc => "misc",
        }
    }
}

#[derive(Debug, Clone, Copy, PartialEq, Eq)]
pub struct AppletMetadata {
    pub name: &'static str,
    pub category: AppletCategory,
    pub posix_level: PosixLevel,
    pub description: &'static str,
    pub feature_flag: &'static str,
    pub multi_call: bool,
}

impl AppletMetadata {
    pub fn new(
        name: &'static str,
        category: AppletCategory,
        posix_level: PosixLevel,
        description: &'static str,
        feature_flag: &'static str,
        multi_call: bool,
    ) -> (r: Self)
        ensures
            r.name == name,
            r.category == category,
            r.posix_level == posix_level,
            r.description == description,
            r.feature_flag == feature_flag,
            r.multi_call == multi_call,
    {
        AppletMetadata { name, category, posix_level, description, feature_flag, multi_call }
    }

    /// The six lines that describe the applet, each `key: value`.
    pub fn to_report_lines(self) -> (r: [String; 6])
        ensures
            r[0]@ == "name: "@ + self.name@,
            r[1]@ == "category: "@ + category_name(self.category),
            r[2]@ == "posix_level: "@ + posix_level_name(self.posix_level),
            r[3]@ == "feature_flag: "@ + self.feature_flag@,
            r[4]@ == "multi_call: "@ + (if self.multi_call { "yes"@ } else { "no"@ }),
            r[5]@ == "description: "@ + self.description@,
    {
        let yes_no = if self.multi_call {
            "yes"
        } else {
            "no"
        };
        [
            concat_str("name: ", self.name),
            concat_str("category: ", self.category.as_str()),
            concat_str("posix_level: ", self.posix_level.as_str()),
            concat_str("feature_flag: ", self.feature_flag),
            concat_str("multi_call: ", yes_no),
            concat_str("description: ", self.description),
        ]
    }
}

} // verus!
