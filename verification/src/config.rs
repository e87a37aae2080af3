//! Display configuration injected into the graph at load time.

use vstd::prelude::*;

verus! {

/// The mathematical value of a [`Config`].
#[verifier::ext_equal]
pub struct ConfigView {
    pub hide_backlog_items: bool,
    pub backlog_name: Seq<char>,
    pub goal_color: Seq<char>,
    pub condition_color: Seq<char>,
    pub task_color: Seq<char>,
}

/// Three terminal color tokens, the backlog-hiding switch, and the name of
/// the backlog goal. Consulted only by the listing traversal.
pub struct Config {
    pub hide_backlog_items: bool,
    pub backlog_name: String,
    pub goal_color: String,
    pub condition_color: String,
    pub task_color: String,
}

impl View for Config {
    type V = ConfigView;

    open spec fn view(&self) -> ConfigView {
        ConfigView {
            hide_backlog_items: self.hide_backlog_items,
            backlog_name: self.backlog_name@,
            goal_color: self.goal_color@,
            condition_color: self.condition_color@,
            task_color: self.task_color@,
        }
    }
}

impl Clone for Config {
    /// Clones the configuration; the copy has the same mathematical value.
    fn clone(&self) -> (r: Self)
        ensures
            r@ == self@,
    {
        Config {
            hide_backlog_items: self.hide_backlog_items,
            backlog_name: self.backlog_name.clone(),
            goal_color: self.goal_color.clone(),
            condition_color: self.condition_color.clone(),
            task_color: self.task_color.clone(),
        }
    }
}

impl Default for Config {
    /// The documented defaults, used when no configuration can be read.
    fn default() -> (r: Config)
        ensures
            r@.hide_backlog_items == true,
            r@.backlog_name == "backlog_name"@,
            r@.goal_color == "01;94"@,
            r@.condition_color == "01;33"@,
            r@.task_color == "0;39"@,
    {
        Config {
            goal_color: String::from_str("01;94"),
            condition_color: String::from_str("01;33"),
            task_color: String::from_str("0;39"),
            hide_backlog_items: true,
            backlog_name: String::from_str("backlog_name"),
        }
    }
}

} // verus!
