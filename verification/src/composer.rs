use vstd::prelude::*;

verus! {

/// The entry point of an editing session. In this version it keeps no
/// state and answers every request by keeping the text as it is.
pub struct ComposerModel {}

/// What a client should do after an edit.
#[derive(Debug, Clone)]
pub struct ComposerUpdate {
    pub text_update: TextUpdate,
    pub menu_state: MenuState,
    pub actions: Vec<ComposerAction>,
}

/// How the text shown changes.
#[derive(Debug, Clone)]
pub enum TextUpdate {
    Keep,
    ReplaceAll(String),
}

/// The state of the formatting menu.
#[derive(Debug, Clone, Copy, PartialEq, Eq, Structural)]
pub enum MenuState {
    Nothing,
}

/// A request sent to the client, with its identifier.
#[derive(Debug, Clone)]
pub struct ComposerAction {
    pub action_id: String,
    pub action: ActionRequest,
}

/// What the client is asked to do.
#[derive(Debug, Clone, Copy, PartialEq, Eq, Structural)]
pub enum ActionRequest {
    Dummy,
}

/// What the client answered.
#[derive(Debug, Clone, Copy, PartialEq, Eq, Structural)]
pub enum ActionResponse {
    Dummy,
}

/// The update that keeps the text and sends no action.
pub open spec fn is_keep(u: ComposerUpdate, menu_state: MenuState) -> bool {
    &&& u.text_update is Keep
    &&& u.menu_state == menu_state
    &&& u.actions@.len() == 0
}

impl ComposerUpdate {
    /// An update that keeps the text, shows `menu_state` and sends no
    /// action.
    pub fn keep(menu_state: MenuState) -> (u: Self)
        ensures
            is_keep(u, menu_state),
    {
        ComposerUpdate { text_update: TextUpdate::Keep, menu_state, actions: Vec::new() }
    }
}

impl ComposerModel {
    /// A new model.
    pub fn new() -> (m: Self) {
        ComposerModel {  }
    }

    /// Select the given range; the cursor is at `end_codepoint`. This
    /// version records nothing.
    pub fn select(&mut self, start_codepoint: usize, end_codepoint: usize)
        ensures
            *final(self) == *old(self),
    {
    }

    /// Replace the selection with `new_text`.
    pub fn replace_text(&mut self, new_text: String) -> (u: ComposerUpdate)
        ensures
            is_keep(u, MenuState::Nothing),
            *final(self) == *old(self),
    {
        ComposerUpdate::keep(MenuState::Nothing)
    }

    /// Delete backwards.
    pub fn backspace(&mut self) -> (u: ComposerUpdate)
        ensures
            is_keep(u, MenuState::Nothing),
            *final(self) == *old(self),
    {
        ComposerUpdate::keep(MenuState::Nothing)
    }

    /// Delete forwards.
    pub fn delete(&mut self) -> (u: ComposerUpdate)
        ensures
            is_keep(u, MenuState::Nothing),
            *final(self) == *old(self),
    {
        ComposerUpdate::keep(MenuState::Nothing)
    }

    /// Take the client's answer to an action.
    pub fn action_response(&mut self, action_id: String, response: ActionResponse) -> (u:
        ComposerUpdate)
        ensures
            is_keep(u, MenuState::Nothing),
            *final(self) == *old(self),
    {
        ComposerUpdate::keep(MenuState::Nothing)
    }
}

} // verus!
