//! Notifications for the operator, as plain values. Showing one is the
//! business of whoever owns the screen.

use vstd::prelude::*;

verus! {

/// A notification to put before the operator.
#[derive(Debug, Clone)]
pub struct ToastNotification {
    pub title: String,
    pub message: String,
    /// Where a click on the notification leads, if anywhere.
    pub url: Option<String>,
    /// How long the notification stays up; `None` keeps it until dismissed.
    pub timeout: Option<std::time::Duration>,
}

/// A notification that stays until dismissed and opens `url` when clicked.
pub fn persistent_toast_notification_with_click_to_open_url(
    title: &str,
    message: &str,
    url: &str,
) -> (notif: ToastNotification)
    ensures
        notif.title@ == title@,
        notif.message@ == message@,
        notif.url is Some,
        notif.url->0@ == url@,
        notif.timeout is None,
{
    ToastNotification {
        title: title.to_owned(),
        message: message.to_owned(),
        url: Some(url.to_owned()),
        timeout: None,
    }
}

/// A notification that stays until dismissed and leads nowhere.
pub fn persistent_toast_notification(title: &str, message: &str) -> (notif: ToastNotification)
    ensures
        notif.title@ == title@,
        notif.message@ == message@,
        notif.url is None,
        notif.timeout is None,
{
    ToastNotification {
        title: title.to_owned(),
        message: message.to_owned(),
        url: None,
        timeout: None,
    }
}

} // verus!
