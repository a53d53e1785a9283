//! Editor-session state kept by the agent protocol server: the workspace, the
//! files opened so far, the active file and the cursor line.

use vstd::prelude::*;

verus! {

/// Opaque JSON value carried in agent messages.
#[verifier::external_type_specification]
#[verifier::external_body]
pub struct ExJsonValue(serde_json::Value);

/// Session state shared with the editor.
#[derive(Debug, Clone)]
pub struct AcpSyncState {
    pub workspace_uri: String,
    pub open_files: Vec<String>,
    pub active_file: Option<String>,
    pub cursor_line: Option<u32>,
}

/// A message exchanged with an agent, with a free-form JSON payload.
#[derive(Debug)]
pub struct AcpAgentMessage {
    pub message_id: String,
    pub conversation_id: String,
    pub payload: serde_json::Value,
}

/// Views of a list of strings.
pub open spec fn strings_view(v: Seq<String>) -> Seq<Seq<char>> {
    v.map_values(|s: String| s@)
}

/// Server that tracks the editor session.
pub struct AcpServerEngine {
    state: AcpSyncState,
}

/// Whether `path` is among `files`.
fn contains_path(files: &Vec<String>, path: &String) -> (r: bool)
    ensures
        r == strings_view(files@).contains(path@),
{
    let mut i: usize = 0;
    while i < files.len()
        invariant
            i <= files@.len(),
            forall|k: int| 0 <= k < i ==> files@[k]@ != path@,
        decreases files@.len() - i,
    {
        if files[i] == *path {
            assert(strings_view(files@)[i as int] == path@);
            return true;
        }
        i += 1;
    }
    proof {
        if strings_view(files@).contains(path@) {
            let k = choose|k: int| 0 <= k < strings_view(files@).len() && strings_view(files@)[k] == path@;
            assert(files@[k]@ == path@);
        }
    }
    false
}

impl AcpServerEngine {
    /// The current session state.
    pub closed spec fn session(&self) -> AcpSyncState {
        self.state
    }

    /// A session over `workspace_uri` with no file open.
    pub fn new(workspace_uri: &str) -> (r: Self)
        ensures
            r.session().workspace_uri@ == workspace_uri@,
            r.session().open_files@.len() == 0,
            r.session().active_file is None,
            r.session().cursor_line is None,
    {
        AcpServerEngine {
            state: AcpSyncState {
                workspace_uri: workspace_uri.to_owned(),
                open_files: Vec::new(),
                active_file: None,
                cursor_line: None,
            },
        }
    }

    /// Makes `path` the active file at `line`, adding it to the open files the
    /// first time it is seen.
    pub fn update_active_file(&mut self, path: String, line: Option<u32>)
        ensures
            final(self).session().workspace_uri == old(self).session().workspace_uri,
            strings_view(final(self).session().open_files@) == if strings_view(
                old(self).session().open_files@,
            ).contains(path@) {
                strings_view(old(self).session().open_files@)
            } else {
                strings_view(old(self).session().open_files@).push(path@)
            },
            final(self).session().active_file == Some(path),
            final(self).session().cursor_line == line,
    {
        if !contains_path(&self.state.open_files, &path) {
            let ghost before = self.state.open_files@;
            self.state.open_files.push(path.clone());
            assert(strings_view(self.state.open_files@) =~= strings_view(before).push(path@));
        }
        self.state.active_file = Some(path);
        self.state.cursor_line = line;
    }

    /// The current session state.
    pub fn get_state(&self) -> (r: &AcpSyncState)
        ensures
            *r == self.session(),
    {
        &self.state
    }
}

} // verus!
