use vstd::prelude::*;

verus! {

/// The configuration of one scan.
#[derive(Clone, Debug)]
pub struct ScanJobArgs {
    /// Directory to scan.
    pub directory: String,
    /// List every item in the final frame.
    pub list_items: bool,
    /// Keep the size cache and offer drill-down after the scan.
    pub interactive_mode: bool,
    /// Largest chart width.
    pub width: usize,
    /// Use the full width of the terminal.
    pub full_width: bool,
    /// Report every unreadable directory.
    pub verbose: bool,
}

impl ScanJobArgs {
    /// Columns the chart may use on a terminal `terminal_width` columns wide: all of
    /// them with `full_width`, else at most `width`.
    pub fn chart_width(&self, terminal_width: usize) -> (r: usize)
        ensures
            r == (if self.full_width || terminal_width <= self.width {
                terminal_width
            } else {
                self.width
            }),
    {
        if self.full_width || terminal_width <= self.width {
            terminal_width
        } else {
            self.width
        }
    }
}

} // verus!
