//! Walkthrough content: the data shapes that the authored sections are written in,
//! and what each block of a section puts on the page.

use crate::text::same_text;
use vstd::prelude::*;

verus! {

/// One walkthrough section: its chrome (from front-matter) plus an ordered list
/// of prose/widget blocks (from the markdown body).
#[derive(Debug, PartialEq)]
pub struct Section {
    /// Anchor id and `#…` link target.
    pub id: &'static str,
    /// `"intro"` (plain section) or `"algo"` (numbered section).
    pub kind: &'static str,
    /// Ordinal (`"01"`–`"06"`); empty for the intro.
    pub step: &'static str,
    /// Small-caps pattern tag (`"one-to-one"` … `"all-to-all"`); empty for intro.
    pub pattern: &'static str,
    /// Section heading.
    pub title: &'static str,
    /// The `(pro, con)` pair for the section's `Tradeoff`, if any.
    pub tradeoff: Option<(&'static str, &'static str)>,
    /// Lead-in paragraph (HTML) preceding the recap table; empty if none.
    pub recap_lead: &'static str,
    /// Rows of the closing recap table (roster section only).
    pub recap: &'static [RecapRow],
    /// Prose and widget blocks in document order.
    pub blocks: &'static [Block],
}

/// A row of the recap table: an accumulated trait and the rung it first appeared
/// on. `new` marks the trait Bodega itself contributes (highlighted).
#[derive(Debug, PartialEq)]
pub struct RecapRow {
    pub label: &'static str,
    pub seen: &'static str,
    pub new: bool,
}

/// An ordered piece of a section body: pre-rendered prose HTML, or a widget
/// placed within the prose flow (rendered from section fields).
#[derive(Debug, PartialEq)]
pub enum Block {
    /// Pre-rendered markdown prose.
    Html(&'static str),
    /// A simulation canvas. The string names a hardcoded scenario (see
    /// [`crate::walkthrough`]); empty renders the plain placeholder.
    Figure(&'static str),
    /// The `Tradeoff` pro/con pair (uses `Section::tradeoff`).
    Tradeoff,
    /// The recap lead-in + table (uses `Section::recap_lead` / `recap`).
    Recap,
}

/// What a block puts on the page.
#[derive(Debug, Clone, Copy)]
pub enum Widget {
    /// Prose.
    Prose(&'static str),
    /// The canvas of the scenario with that name.
    Canvas(&'static str),
    /// The pro/con pair.
    ProCon(&'static str, &'static str),
    /// The recap table, after its lead-in paragraph if there is one.
    Table { lead: Option<&'static str>, rows: &'static [RecapRow] },
    /// Nothing.
    Blank,
}

impl Section {
    /// Whether the section is a numbered one.
    pub fn is_numbered(&self) -> (r: bool)
        ensures
            r == (self.kind@ == "algo"@),
    {
        same_text(self.kind, "algo")
    }

    /// What one of the section's blocks puts on the page.
    pub fn widget(&self, block: &Block) -> (r: Widget)
        ensures
            match *block {
                Block::Html(html) => r == Widget::Prose(html),
                Block::Figure(name) => r == Widget::Canvas(name),
                Block::Tradeoff => match self.tradeoff {
                    Some((pro, con)) => r == Widget::ProCon(pro, con),
                    None => r == Widget::Blank,
                },
                Block::Recap => r == (Widget::Table {
                    lead: if self.recap_lead@.len() > 0 {
                        Some(self.recap_lead)
                    } else {
                        None
                    },
                    rows: self.recap,
                }),
            },
    {
        match block {
            Block::Html(html) => Widget::Prose(html),
            Block::Figure(name) => Widget::Canvas(name),
            Block::Tradeoff => match self.tradeoff {
                Some((pro, con)) => Widget::ProCon(pro, con),
                None => Widget::Blank,
            },
            Block::Recap => Widget::Table {
                lead: if self.recap_lead.unicode_len() > 0 {
                    Some(self.recap_lead)
                } else {
                    None
                },
                rows: self.recap,
            },
        }
    }
}

impl RecapRow {
    /// CSS class of the row's second cell.
    pub fn class(&self) -> (r: &'static str)
        ensures
            r@ == if self.new {
                "recap-new"@
            } else {
                ""@
            },
    {
        if self.new {
            "recap-new"
        } else {
            ""
        }
    }
}

} // verus!
