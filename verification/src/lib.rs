pub mod text;
pub mod bytes;
pub mod token;
pub mod room;
pub mod room_delivery;
pub mod room_api;
pub mod schema;
pub mod presentation;
pub mod local_file;
pub mod selection;
pub mod mentions;
pub mod editor;
pub mod twin;
pub mod search_pane;
pub mod sidebar;
pub mod json;
pub mod pi_conversation;
pub mod pi_fork;
pub mod conversations;
pub mod transcript;
pub mod search_view;
pub mod editor_input;
pub mod panel_focus;
pub mod room_input;
pub mod conversation_preview;
pub mod membership;
pub mod ai_results;
