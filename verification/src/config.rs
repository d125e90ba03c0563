//! Display configuration: the boolean toggles that decide which fields
//! of a node a rendered line carries.

use vstd::prelude::*;

verus! {

/// The seven independent display toggles, fixed for one render pass.
#[derive(Debug, Clone, Copy, PartialEq, Eq, Structural)]
pub struct DisplayConfig {
    /// Show each node's source range.
    pub show_range: bool,
    /// Show the text of every node.
    pub show_all_text: bool,
    /// Show the text of non-token nodes.
    pub show_node_text: bool,
    /// Show the text of token nodes.
    pub show_token_text: bool,
    /// Show the node/token classification label.
    pub show_node_type: bool,
    /// Show a blank separator line between statements.
    pub show_sql_separator: bool,
    /// Show the source statement before each tree.
    pub show_sql: bool,
}

/// Whether a node's text is printed: token nodes go by the token
/// toggle, other nodes by either of the two node-text toggles.
pub open spec fn spec_should_show_text(config: DisplayConfig, is_token: bool) -> bool {
    if is_token {
        config.show_token_text
    } else {
        config.show_all_text || config.show_node_text
    }
}

impl DisplayConfig {
    /// Decides whether the text of a node of the given classification
    /// is printed under this configuration.
    pub fn should_show_text(&self, is_token: bool) -> (r: bool)
        ensures
            r == spec_should_show_text(*self, is_token),
    {
        if is_token {
            self.show_token_text
        } else {
            self.show_all_text || self.show_node_text
        }
    }

    /// Builds the configuration from the tree sub-command's switches,
    /// negating the `hide` switches.
    pub fn from_flags(
        hide_range: bool,
        show_text: bool,
        show_node_text: bool,
        hide_token_text: bool,
        show_node_type: bool,
        show_sql_separator: bool,
        show_sql: bool,
    ) -> (r: DisplayConfig)
        ensures
            r == (DisplayConfig {
                show_range: !hide_range,
                show_all_text: show_text,
                show_node_text: show_node_text,
                show_token_text: !hide_token_text,
                show_node_type: show_node_type,
                show_sql_separator: show_sql_separator,
                show_sql: show_sql,
            }),
    {
        DisplayConfig {
            show_range: !hide_range,
            show_all_text: show_text,
            show_node_text: show_node_text,
            show_token_text: !hide_token_text,
            show_node_type: show_node_type,
            show_sql_separator: show_sql_separator,
            show_sql: show_sql,
        }
    }
}

} // verus!
