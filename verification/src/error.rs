//! The application-wide error type.

use vstd::prelude::*;
use crate::text::to_string;
use vstd::string::*;

verus! {

/// Errors returned by the operations of the library. Each variant carries a detail text.
#[derive(Debug, Clone)]
pub enum ShelfError {
    Database(String),
    NotFound(String),
    Settings(String),
    Shortcut(String),
    DragDropFailed(String),
    Conflict(String),
    Internal(String),
}

impl ShelfError {
    /// The machine-readable code sent to the front end together with the message.
    pub open spec fn code_text(&self) -> Seq<char> {
        match self {
            ShelfError::Database(_) => "database_error"@,
            ShelfError::NotFound(_) => "not_found"@,
            ShelfError::Settings(_) => "settings_error"@,
            ShelfError::Shortcut(_) => "shortcut_error"@,
            ShelfError::DragDropFailed(_) => "drag_drop_failed"@,
            ShelfError::Conflict(_) => "conflict"@,
            ShelfError::Internal(_) => "internal_error"@,
        }
    }

    /// The detail text carried by the variant.
    pub open spec fn detail(&self) -> Seq<char> {
        match self {
            ShelfError::Database(s) => s@,
            ShelfError::NotFound(s) => s@,
            ShelfError::Settings(s) => s@,
            ShelfError::Shortcut(s) => s@,
            ShelfError::DragDropFailed(s) => s@,
            ShelfError::Conflict(s) => s@,
            ShelfError::Internal(s) => s@,
        }
    }

    /// The user-facing prefix put before the detail text.
    pub open spec fn message_prefix(&self) -> Seq<char> {
        match self {
            ShelfError::Database(_) => "データベースエラーが発生しました: "@,
            ShelfError::NotFound(_) => "指定されたアイテムが見つかりません: "@,
            ShelfError::Settings(_) => "設定の読み書きに失敗しました: "@,
            ShelfError::Shortcut(_) => "グローバルショートカットの登録に失敗しました: "@,
            ShelfError::DragDropFailed(_) => "ドラッグ&ドロップ処理に失敗しました: "@,
            ShelfError::Conflict(_) => ""@,
            ShelfError::Internal(_) => "内部エラーが発生しました: "@,
        }
    }

    /// Returns the machine-readable code of the error.
    pub fn code(&self) -> (r: &'static str)
        ensures
            r@ == self.code_text(),
    {
        match self {
            ShelfError::Database(_) => "database_error",
            ShelfError::NotFound(_) => "not_found",
            ShelfError::Settings(_) => "settings_error",
            ShelfError::Shortcut(_) => "shortcut_error",
            ShelfError::DragDropFailed(_) => "drag_drop_failed",
            ShelfError::Conflict(_) => "conflict",
            ShelfError::Internal(_) => "internal_error",
        }
    }

    /// Returns the user-facing message: the variant's prefix followed by its detail text.
    pub fn message(&self) -> (r: String)
        ensures
            r@ == self.message_prefix() + self.detail(),
    {
        let (prefix, detail): (&str, &String) = match self {
            ShelfError::Database(s) => ("データベースエラーが発生しました: ", s),
            ShelfError::NotFound(s) => ("指定されたアイテムが見つかりません: ", s),
            ShelfError::Settings(s) => ("設定の読み書きに失敗しました: ", s),
            ShelfError::Shortcut(s) => ("グローバルショートカットの登録に失敗しました: ", s),
            ShelfError::DragDropFailed(s) => ("ドラッグ&ドロップ処理に失敗しました: ", s),
            ShelfError::Conflict(s) => ("", s),
            ShelfError::Internal(s) => ("内部エラーが発生しました: ", s),
        };
        let mut out = to_string(prefix);
        out.append(detail.as_str());
        out
    }
}

} // verus!
