use vstd::prelude::*;

verus! {

/// The application's own settings: which external diff tool to launch.
pub struct AppConfig {
    pub diff_tool: String,
}

impl AppConfig {
    pub open spec fn spec_diff_tool(&self) -> Seq<char> {
        self.diff_tool@
    }

    pub fn diff_tool(&self) -> (r: &str)
        ensures
            r@ == self.spec_diff_tool(),
    {
        self.diff_tool.as_str()
    }

    pub fn set_diff_tool(&mut self, new_diff_tool: String)
        ensures
            final(self).spec_diff_tool() == new_diff_tool@,
    {
        self.diff_tool = new_diff_tool;
    }

    /// Rebuilds the settings from a loaded value.
    pub fn from_diff_tool(diff_tool: String) -> (r: AppConfig)
        ensures
            r.spec_diff_tool() == diff_tool@,
    {
        AppConfig { diff_tool }
    }
}

impl Default for AppConfig {
    /// The default external diff tool.
    fn default() -> (r: Self)
        ensures
            r.spec_diff_tool() == "meld"@,
    {
        AppConfig { diff_tool: "meld".to_owned() }
    }
}

} // verus!
