//! The decisions of the application: which screen it shows, how a key changes
//! it, and when it stops. Reading keys and drawing are left to the caller,
//! which runs the loop.

use vstd::prelude::*;
use crate::test_stats::{TestStats, TestStatsView};
use crate::typing_test::{finished_spec, key_step, now_nanos, Key, TypingTest, TypingTestView};

verus! {

/// The screen the application shows.
#[derive(Debug, Default)]
pub enum AppState {
    #[default]
    MainMenu,
    ShowStats(TestStats),
    TypingTest(TypingTest),
}

/// What an [`AppState`] holds, as mathematical values.
pub enum AppStateView {
    MainMenu,
    ShowStats(TestStatsView),
    TypingTest(TypingTestView),
}

impl View for AppState {
    type V = AppStateView;

    open spec fn view(&self) -> AppStateView {
        match self {
            AppState::MainMenu => AppStateView::MainMenu,
            AppState::ShowStats(s) => AppStateView::ShowStats(s@),
            AppState::TypingTest(t) => AppStateView::TypingTest(t@),
        }
    }
}

/// The application: whether it runs, and what it shows.
#[derive(Debug, Default)]
pub struct App {
    /// Is the application running?
    pub running: bool,
    pub state: AppState,
}

/// The state after the key `key` at the time `now`: Esc leaves the state as
/// it is (the application stops); another key goes to the typing test.
pub open spec fn app_key_step(s: AppStateView, key: Key, now: i128) -> AppStateView {
    if key == Key::Esc {
        s
    } else {
        match s {
            AppStateView::TypingTest(t) => AppStateView::TypingTest(key_step(t, key, now)),
            _ => s,
        }
    }
}

/// The state after checking the test at the time `now`: a test whose words
/// are all typed gives way to its results.
pub open spec fn app_finish_step(s: AppStateView, now: i128) -> AppStateView {
    match s {
        AppStateView::TypingTest(t) => match finished_spec(t, now) {
            Some(st) => AppStateView::ShowStats(st),
            None => s,
        },
        _ => s,
    }
}

/// Showing the results is final: checking again changes nothing.
pub proof fn law_finish_step_idempotent(s: AppStateView, t1: i128, t2: i128)
    ensures
        app_finish_step(app_finish_step(s, t1), t2) == app_finish_step(s, t1),
{
}

impl App {
    /// An application that shows `state` and is not running yet.
    pub fn with_state(state: AppState) -> (r: Self)
        ensures
            !r.running,
            r.state@ == state@,
    {
        App { running: false, state }
    }

    /// Marks the application as running.
    pub fn start(&mut self)
        ensures
            final(self).running,
            final(self).state@ == old(self).state@,
    {
        self.running = true;
    }

    /// Handles the key `key`, pressed at the time `now`: Esc stops the
    /// application, another key goes to the typing test when one is shown.
    pub fn on_key_event_at(&mut self, key: Key, now: i128)
        ensures
            final(self).running == (old(self).running && key != Key::Esc),
            final(self).state@ == app_key_step(old(self).state@, key, now),
    {
        if key == Key::Esc {
            self.quit();
            return;
        }
        match &mut self.state {
            AppState::TypingTest(game) => {
                game.on_key_event_at(key, now);
            },
            _ => {},
        }
    }

    /// Handles the key `key`, pressed now.
    pub fn on_key_event(&mut self, key: Key)
        ensures
            final(self).running == (old(self).running && key != Key::Esc),
            exists|now: i128| final(self).state@ == app_key_step(old(self).state@, key, now),
    {
        let ghost before = self.state@;
        let now = now_nanos();
        self.on_key_event_at(key, now);
        assert(self.state@ == app_key_step(before, key, now));
    }

    /// Shows the results once the test is over, at the time `now`.
    pub fn finish_if_done_at(&mut self, now: i128)
        ensures
            final(self).running == old(self).running,
            final(self).state@ == app_finish_step(old(self).state@, now),
    {
        let finished = match &self.state {
            AppState::TypingTest(game) => game.finished_at(now),
            _ => None,
        };
        match finished {
            Some(f) => {
                self.state = AppState::ShowStats(f);
            },
            None => {},
        }
    }

    /// Shows the results once the test is over; a test whose end was not
    /// recorded ends now.
    pub fn finish_if_done(&mut self)
        ensures
            final(self).running == old(self).running,
            exists|now: i128| final(self).state@ == app_finish_step(old(self).state@, now),
    {
        let ghost before = self.state@;
        let now = now_nanos();
        self.finish_if_done_at(now);
        assert(self.state@ == app_finish_step(before, now));
    }

    /// Set running to false to quit the application.
    fn quit(&mut self)
        ensures
            !final(self).running,
            final(self).state@ == old(self).state@,
    {
        self.running = false;
    }
}

} // verus!
