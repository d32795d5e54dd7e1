//! Streaming transcoding between a terminal's UTF-8 text and the legacy
//! multi-byte encoding of the process at its far end. Terminal control
//! sequences pass through byte for byte, whichever encoding is active and
//! however the stream is cut into chunks.

pub mod bytes;
pub mod chunk_laws;
pub mod codec;
pub mod decoder;
pub mod encoder;
pub mod encoding;
pub mod escape;
pub mod filter;
pub mod inbound;
pub mod laws;
pub mod oneshot;
pub mod outbound;
pub mod sequences;
pub mod text_laws;
pub mod toast;

pub use decoder::PaneOutputDecoder;
pub use encoder::PaneInputEncoder;
pub use encoding::{PaneEncoding, MAX_TRAILING_ENCODED_BYTES};
pub use escape::{advance_escape, EscapeState};
pub use filter::{max_chunk_len, Direction};
pub use oneshot::decode_bytes_to_string;
pub use toast::{
    persistent_toast_notification, persistent_toast_notification_with_click_to_open_url,
    ToastNotification,
};
