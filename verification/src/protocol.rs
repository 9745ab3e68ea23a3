//! Which LSP requests and notifications the server answers, by method name.

use vstd::prelude::*;

use crate::text::{push_str, str_equal};

verus! {

/// The requests the server tells apart.
#[derive(Debug, Clone, Copy, PartialEq, Eq)]
pub enum RequestKind {
    Completion,
    Hover,
    Unknown,
}

/// The kind of the request with method `method`.
pub fn request_kind(method: &str) -> (r: RequestKind)
    ensures
        (r == RequestKind::Completion) == (method@ == "textDocument/completion"@),
        (r == RequestKind::Hover) == (method@ == "textDocument/hover"@ && method@
            != "textDocument/completion"@),
        (r == RequestKind::Unknown) == (method@ != "textDocument/completion"@ && method@
            != "textDocument/hover"@),
{
    if str_equal(method, "textDocument/completion") {
        RequestKind::Completion
    } else if str_equal(method, "textDocument/hover") {
        RequestKind::Hover
    } else {
        RequestKind::Unknown
    }
}

/// The message of the error answering a request of unknown method `method`.
pub fn unknown_method_message(method: &str) -> (r: String)
    ensures
        r@ == "unknown method "@ + method@,
{
    let mut r = String::new();
    push_str(&mut r, "unknown method ");
    push_str(&mut r, method);
    assert(Seq::<char>::empty() + "unknown method "@ =~= "unknown method "@);
    r
}

/// The notifications the server tells apart.
#[derive(Debug, Clone, Copy, PartialEq, Eq)]
pub enum NotificationKind {
    Initialized,
    DidOpen,
    DidChange,
    DidClose,
    Reload,
    Exit,
    Other,
}

/// The method names of the notifications the server acts on, in the order
/// of [`NotificationKind`].
pub open spec fn notification_name(k: NotificationKind) -> Seq<char> {
    match k {
        NotificationKind::Initialized => "initialized"@,
        NotificationKind::DidOpen => "textDocument/didOpen"@,
        NotificationKind::DidChange => "textDocument/didChange"@,
        NotificationKind::DidClose => "textDocument/didClose"@,
        NotificationKind::Reload => "zsbc/reload"@,
        NotificationKind::Exit => "exit"@,
        NotificationKind::Other => Seq::empty(),
    }
}

/// Whether `method` names one of the notifications the server acts on.
pub open spec fn is_known_notification(method: Seq<char>) -> bool {
    ||| method == "initialized"@
    ||| method == "textDocument/didOpen"@
    ||| method == "textDocument/didChange"@
    ||| method == "textDocument/didClose"@
    ||| method == "zsbc/reload"@
    ||| method == "exit"@
}

/// The kind of the notification with method `method`: the first of the known
/// names it equals, or `Other`.
pub fn notification_kind(method: &str) -> (r: NotificationKind)
    ensures
        r != NotificationKind::Other ==> method@ == notification_name(r),
        r == NotificationKind::Other <==> !is_known_notification(method@),
{
    if str_equal(method, "initialized") {
        NotificationKind::Initialized
    } else if str_equal(method, "textDocument/didOpen") {
        NotificationKind::DidOpen
    } else if str_equal(method, "textDocument/didChange") {
        NotificationKind::DidChange
    } else if str_equal(method, "textDocument/didClose") {
        NotificationKind::DidClose
    } else if str_equal(method, "zsbc/reload") {
        NotificationKind::Reload
    } else if str_equal(method, "exit") {
        NotificationKind::Exit
    } else {
        NotificationKind::Other
    }
}

} // verus!
