//! Pure state of the terminal front end: the event consumption states its
//! handlers trade in, and the tab bar's selection arithmetic. Rendering
//! and key decoding live outside the library.

use vstd::prelude::*;

verus! {

/// What handling an input event produced.
#[derive(Debug, PartialEq, Eq, Clone, Structural)]
pub enum EventState {
    UnexpectedERROR,
    NotConsumed,
    WorkDone,
    ProfileUpdate,
    ProfileUpdateAll,
    ProfileSelect,
    ProfileDelete,
}

impl EventState {
    /// Whether some handler consumed the event.
    pub fn is_consumed(&self) -> (r: bool)
        ensures
            r == (*self != EventState::NotConsumed),
    {
        !self.is_notconsumed()
    }

    /// Whether the event is still unhandled.
    pub fn is_notconsumed(&self) -> (r: bool)
        ensures
            r == (*self == EventState::NotConsumed),
    {
        *self == EventState::NotConsumed
    }
}

/// The tab bar: an ordered list of tab titles and the selected position.
pub struct ClashTuiTabBar {
    pub title: String,
    pub is_visible: bool,
    pub tab_titles: Vec<String>,
    pub index: usize,
}

impl ClashTuiTabBar {
    /// The selection stays inside the titles whenever there are any.
    pub open spec fn wf(self) -> bool {
        self.tab_titles@.len() > 0 ==> self.index < self.tab_titles@.len()
    }

    /// A tab bar showing the given titles, with the first one selected.
    pub fn new(title: String, tab_titles: Vec<String>) -> (r: Self)
        ensures
            r.title == title,
            r.is_visible,
            r.tab_titles == tab_titles,
            r.index == 0,
            r.wf(),
    {
        Self { title, is_visible: true, tab_titles, index: 0 }
    }

    /// Select the next tab, wrapping to the first after the last.
    pub fn next(&mut self)
        requires
            old(self).wf(),
            old(self).tab_titles@.len() > 0,
        ensures
            final(self).index == (old(self).index + 1) % (old(self).tab_titles@.len() as int),
            final(self).tab_titles == old(self).tab_titles,
            final(self).title == old(self).title,
            final(self).is_visible == old(self).is_visible,
            final(self).wf(),
    {
        let n = self.tab_titles.len();
        self.index = (self.index + 1) % n;
    }

    /// Select the previous tab, wrapping to the last before the first.
    pub fn previous(&mut self)
        requires
            old(self).wf(),
            old(self).tab_titles@.len() > 0,
        ensures
            final(self).index == if old(self).index > 0 {
                old(self).index - 1
            } else {
                old(self).tab_titles@.len() - 1
            },
            final(self).tab_titles == old(self).tab_titles,
            final(self).title == old(self).title,
            final(self).is_visible == old(self).is_visible,
            final(self).wf(),
    {
        if self.index > 0 {
            self.index -= 1;
        } else {
            self.index = self.tab_titles.len() - 1;
        }
    }

    /// The title of the selected tab.
    pub fn selected(&self) -> (r: Option<&String>)
        requires
            self.index < self.tab_titles@.len(),
        ensures
            r matches Some(t) && t@ == self.tab_titles@[self.index as int]@,
    {
        Some(&self.tab_titles[self.index])
    }
}

} // verus!
