//! What is due when: the deadlines of the window, in milliseconds, and what comes round
//! every so many ticks.

use vstd::prelude::*;

verus! {

/// How long the banner says that a paste was tidied.
pub const BANNER_MS: u64 = 3_000;

/// How long the user's own scrolling holds off that of the reader.
pub const HOLD_MS: u64 = 4_000;

/// How long a change of speed waits for another.
pub const SPEED_MS: u64 = 250;

/// How long a new place to resume at waits to be saved.
pub const SAVE_MS: u64 = 1_000;

/// Has a deadline passed?
pub open spec fn passed(deadline: Option<u64>, now: u64) -> bool {
    match deadline {
        Some(t) => now >= t,
        None => false,
    }
}

/// A deadline after so many milliseconds.
pub open spec fn after(now: u64, ms: u64) -> u64 {
    if now <= u64::MAX - ms {
        (now + ms) as u64
    } else {
        u64::MAX
    }
}

/// The deadlines of the window.
#[derive(Debug, Clone, Copy)]
pub struct Timers {
    pub tick: u64,
    pub banner_until: Option<u64>,
    pub status_until: Option<u64>,
    pub save_due: Option<u64>,
    /// A speed in hundredths that is not applied yet, and when it will be.
    pub speed_pending: Option<(u32, u64)>,
    pub scroll_held_until: u64,
}

/// What is due at a tick.
#[derive(Debug, Clone, Copy, PartialEq, Eq, Structural)]
pub struct Due {
    pub hide_banner: bool,
    pub clear_status: bool,
    pub apply_speed: Option<u32>,
    pub save: bool,
}

/// What is due of some deadlines; a text found changed is saved at once.
pub open spec fn due_at(t: Timers, now: u64, text_changed: bool) -> Due {
    Due {
        hide_banner: passed(t.banner_until, now),
        clear_status: passed(t.status_until, now),
        apply_speed: match t.speed_pending {
            Some((v, deadline)) => if now >= deadline {
                Some(v)
            } else {
                None
            },
            None => None,
        },
        save: text_changed || passed(t.save_due, now),
    }
}

/// The deadlines without those of what was due.
pub open spec fn left_after(t: Timers, due: Due) -> Timers {
    Timers {
        banner_until: if due.hide_banner {
            None
        } else {
            t.banner_until
        },
        status_until: if due.clear_status {
            None
        } else {
            t.status_until
        },
        speed_pending: if due.apply_speed is Some {
            None
        } else {
            t.speed_pending
        },
        save_due: if due.save {
            None
        } else {
            t.save_due
        },
        ..t
    }
}

impl Timers {
    pub fn new(now: u64) -> (t: Timers)
        ensures
            t == (Timers {
                tick: 0,
                banner_until: None,
                status_until: None,
                save_due: None,
                speed_pending: None,
                scroll_held_until: now,
            }),
    {
        Timers {
            tick: 0,
            banner_until: None,
            status_until: None,
            save_due: None,
            speed_pending: None,
            scroll_held_until: now,
        }
    }

    /// Another tick begins.
    pub fn begin(&mut self)
        ensures
            *final(self) == (Timers { tick: old(self).tick.wrapping_add(1), ..*old(self) }),
    {
        self.tick = self.tick.wrapping_add(1);
    }

    /// Is this a tick to show how far reading has come? One in ten is.
    pub fn shows_progress(&self) -> (b: bool)
        ensures
            b == (self.tick % 10 == 0),
    {
        self.tick % 10 == 0
    }

    /// Is this a tick to see how an export stands? One in six is.
    pub fn polls_export(&self) -> (b: bool)
        ensures
            b == (self.tick % 6 == 0),
    {
        self.tick % 6 == 0
    }

    /// Is this a tick to see whether the text has changed? One in 120 is.
    pub fn checks_text(&self) -> (b: bool)
        ensures
            b == (self.tick % 120 == 0),
    {
        self.tick % 120 == 0
    }

    /// The banner is shown.
    pub fn show_banner(&mut self, now: u64)
        ensures
            *final(self) == (Timers {
                banner_until: Some(after(now, BANNER_MS)),
                ..*old(self)
            }),
    {
        self.banner_until = Some(now.saturating_add(BANNER_MS));
    }

    /// The status line is to be cleared after so many milliseconds.
    pub fn hold_status(&mut self, now: u64, ms: u64)
        ensures
            *final(self) == (Timers { status_until: Some(after(now, ms)), ..*old(self) }),
    {
        self.status_until = Some(now.saturating_add(ms));
    }

    /// The speed was changed; another change soon makes this one moot.
    pub fn change_speed(&mut self, now: u64, speed100: u32)
        ensures
            *final(self) == (Timers {
                speed_pending: Some((speed100, after(now, SPEED_MS))),
                ..*old(self)
            }),
    {
        self.speed_pending = Some((speed100, now.saturating_add(SPEED_MS)));
    }

    /// The state is to be saved, soon or at once.
    pub fn save_in(&mut self, now: u64, ms: u64)
        ensures
            *final(self) == (Timers { save_due: Some(after(now, ms)), ..*old(self) }),
    {
        self.save_due = Some(now.saturating_add(ms));
    }

    /// The user has scrolled.
    pub fn hold_scroll(&mut self, now: u64)
        ensures
            *final(self) == (Timers { scroll_held_until: after(now, HOLD_MS), ..*old(self) }),
    {
        self.scroll_held_until = now.saturating_add(HOLD_MS);
    }

    /// May the reader scroll? Not while the user does.
    pub fn may_scroll(&self, now: u64) -> (b: bool)
        ensures
            b == (now >= self.scroll_held_until),
    {
        now >= self.scroll_held_until
    }

    /// Take what is due. A text found changed is saved at once.
    pub fn fire(&mut self, now: u64, text_changed: bool) -> (due: Due)
        ensures
            due == due_at(*old(self), now, text_changed),
            *final(self) == left_after(*old(self), due),
    {
        let hide_banner: bool = match self.banner_until {
            Some(t) => now >= t,
            None => false,
        };
        let clear_status: bool = match self.status_until {
            Some(t) => now >= t,
            None => false,
        };
        let apply_speed: Option<u32> = match self.speed_pending {
            Some((v, t)) => if now >= t {
                Some(v)
            } else {
                None
            },
            None => None,
        };
        let save: bool = text_changed || (match self.save_due {
            Some(t) => now >= t,
            None => false,
        });
        if hide_banner {
            self.banner_until = None;
        }
        if clear_status {
            self.status_until = None;
        }
        if apply_speed.is_some() {
            self.speed_pending = None;
        }
        if save {
            self.save_due = None;
        }
        Due { hide_banner, clear_status, apply_speed, save }
    }
}

/// What was due is not due again: firing twice at a time does nothing the second time.
pub proof fn lemma_due_once(t: Timers, now: u64, text_changed: bool)
    ensures
        due_at(left_after(t, due_at(t, now, text_changed)), now, false) == (Due {
            hide_banner: false,
            clear_status: false,
            apply_speed: None,
            save: false,
        }),
{
}

/// What is due, and what of the deadlines is left: each thing whose time has come, and no
/// other; a text found changed is saved at once. What was due is forgotten, and the rest stays.
pub proof fn lemma_what_is_due(t: Timers, now: u64, text_changed: bool)
    ensures
        ({
            let due = due_at(t, now, text_changed);
            let left = left_after(t, due);
            &&& due.hide_banner <==> t.banner_until is Some && t.banner_until->0 <= now
            &&& due.clear_status <==> t.status_until is Some && t.status_until->0 <= now
            &&& due.save <==> text_changed || (t.save_due is Some && t.save_due->0 <= now)
            &&& due.apply_speed is Some <==> t.speed_pending is Some && (t.speed_pending->0).1
                <= now
            &&& due.apply_speed is Some ==> due.apply_speed->0 == (t.speed_pending->0).0
            &&& left.banner_until == (if due.hide_banner {
                None
            } else {
                t.banner_until
            })
            &&& left.status_until == (if due.clear_status {
                None
            } else {
                t.status_until
            })
            &&& left.save_due == (if due.save {
                None
            } else {
                t.save_due
            })
            &&& left.speed_pending == (if due.apply_speed is Some {
                None
            } else {
                t.speed_pending
            })
            &&& left.tick == t.tick && left.scroll_held_until == t.scroll_held_until
        }),
{
}

/// The waits: three seconds of banner, four of the user's own scrolling, a quarter of a
/// second for another change of speed, and one second before a place is saved.
pub proof fn lemma_how_long_things_wait(now: u64)
    requires
        now <= u64::MAX - 4000,
    ensures
        after(now, BANNER_MS) == now + 3000,
        after(now, HOLD_MS) == now + 4000,
        after(now, SPEED_MS) == now + 250,
        after(now, SAVE_MS) == now + 1000,
{
}

} // verus!
