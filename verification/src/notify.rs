//! Desktop notifications as plain values: what to show, not how.

use vstd::prelude::*;

verus! {

/// A desktop notification to show: its title and its body.
pub struct Notification {
    pub title: String,
    pub body: String,
}

/// The title and body of a notification, by their characters.
pub struct NotificationView {
    pub title: Seq<char>,
    pub body: Seq<char>,
}

impl View for Notification {
    type V = NotificationView;

    open spec fn view(&self) -> NotificationView {
        NotificationView { title: self.title@, body: self.body@ }
    }
}

} // verus!
