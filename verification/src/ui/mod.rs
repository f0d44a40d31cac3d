//! What the user interface shows and decides, without the widgets that show it.

pub mod browser;
pub mod connection_form;
pub mod notices;
pub mod readable;
pub mod transfer_item;
