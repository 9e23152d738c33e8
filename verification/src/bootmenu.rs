use vstd::prelude::*;

verus! {

/// Seconds before the selected system starts on its own.
pub const TIMEOUT_SECS: i32 = 10;
/// The screen row of the first menu entry.
pub const LIST_TOP: usize = 6;
/// Idle polls (of 50 ms) in a second.
pub const TICKS_PER_SEC: u32 = 20;

/// A key of the boot menu.
#[derive(Clone, Copy, PartialEq, Eq, Structural)]
pub enum MenuKey {
    Up,
    Down,
    Escape,
    Enter,
    Tab,
    Other,
}

/// What the menu does after a key or an idle poll: go on (redrawing the entries and the
/// countdown line as told), start entry `n`, or run the memory test.
#[derive(Clone, Copy, PartialEq, Eq, Structural)]
pub enum MenuOutcome {
    Continue { entries: bool, countdown: bool },
    Boot(usize),
    Memtest,
}

/// The boot menu over `n` entries: the selected entry, whether the tools line has the focus,
/// the seconds left before the selected entry starts (none once a key was pressed) and the
/// idle polls within the current second.
#[derive(Clone, Copy, PartialEq, Eq, Structural)]
pub struct Menu {
    pub n: usize,
    pub sel: usize,
    pub tool_focus: bool,
    pub countdown: Option<i32>,
    pub ticks: u32,
}

/// The row of the advanced-options hint below `n` entries.
pub open spec fn f8_row_spec(n: int) -> int {
    LIST_TOP + n + 2
}

/// The row of the advanced-options hint below `n` entries.
pub fn f8_row(n: usize) -> (r: usize)
    requires
        n <= usize::MAX - 16,
    ensures
        r == f8_row_spec(n as int),
{
    LIST_TOP + n + 2
}

/// The row of the countdown below `n` entries.
pub fn cd_row(n: usize) -> (r: usize)
    requires
        n <= usize::MAX - 16,
    ensures
        r == f8_row_spec(n as int) + 1,
{
    f8_row(n) + 1
}

/// The row of the tools label on a screen of `rows` rows.
pub fn tools_lbl_row(rows: usize) -> (r: usize)
    ensures
        r == (if rows >= 8 { rows - 8 } else { 0 }),
{
    if rows >= 8 { rows - 8 } else { 0 }
}

/// The row of the tools entry on a screen of `rows` rows.
pub fn tool_row(rows: usize) -> (r: usize)
    ensures
        r == (if rows >= 6 { rows - 6 } else { 0 }),
{
    if rows >= 6 { rows - 6 } else { 0 }
}

/// The menu after key `k` (see `Menu::key`), with its outcome.
pub open spec fn key_spec(m: Menu, k: MenuKey) -> (Menu, MenuOutcome) {
    let cd_changed = m.countdown is Some;
    let m = Menu { countdown: None, ..m };
    match k {
        MenuKey::Up => {
            let m2 = if m.tool_focus {
                Menu { tool_focus: false, sel: (m.n - 1) as usize, ..m }
            } else if m.sel > 0 {
                Menu { sel: (m.sel - 1) as usize, ..m }
            } else {
                m
            };
            (m2, MenuOutcome::Continue { entries: true, countdown: cd_changed })
        },
        MenuKey::Down => {
            let m2 = if !m.tool_focus {
                if m.sel + 1 < m.n { Menu { sel: (m.sel + 1) as usize, ..m } } else { Menu { tool_focus: true, ..m } }
            } else {
                m
            };
            (m2, MenuOutcome::Continue { entries: true, countdown: cd_changed })
        },
        MenuKey::Escape => {
            if m.tool_focus {
                (Menu { tool_focus: false, ..m }, MenuOutcome::Continue { entries: true, countdown: cd_changed })
            } else {
                (m, MenuOutcome::Continue { entries: false, countdown: cd_changed })
            }
        },
        MenuKey::Enter => {
            if m.tool_focus { (m, MenuOutcome::Memtest) } else { (m, MenuOutcome::Boot(m.sel)) }
        },
        MenuKey::Tab => (Menu { tool_focus: !m.tool_focus, ..m }, MenuOutcome::Continue { entries: true, countdown: cd_changed }),
        MenuKey::Other => (m, MenuOutcome::Continue { entries: false, countdown: cd_changed }),
    }
}

/// The menu after an idle poll of 50 ms (see `Menu::idle`), with its outcome.
pub open spec fn idle_spec(m: Menu) -> (Menu, MenuOutcome) {
    match m.countdown {
        None => (m, MenuOutcome::Continue { entries: false, countdown: false }),
        Some(c) => {
            if m.ticks + 1 >= TICKS_PER_SEC {
                if c <= 1 {
                    (Menu { ticks: 0, ..m }, MenuOutcome::Boot(m.sel))
                } else {
                    (Menu { ticks: 0, countdown: Some((c - 1) as i32), ..m }, MenuOutcome::Continue { entries: false, countdown: true })
                }
            } else {
                (Menu { ticks: (m.ticks + 1) as u32, ..m }, MenuOutcome::Continue { entries: false, countdown: false })
            }
        },
    }
}

impl Menu {
    /// The selection lies among the entries, and the countdown and poll count in range.
    pub open spec fn wf(&self) -> bool {
        &&& self.n >= 1
        &&& self.sel < self.n
        &&& self.ticks < TICKS_PER_SEC
        &&& (self.countdown matches Some(c) ==> 1 <= c <= TIMEOUT_SECS)
    }

    /// The menu over `n` entries as it opens: the first entry selected, the countdown at its
    /// full length.
    pub fn new(n: usize) -> (r: Menu)
        requires
            n >= 1,
        ensures
            r.wf(),
            r == (Menu { n, sel: 0, tool_focus: false, countdown: Some(TIMEOUT_SECS), ticks: 0 }),
    {
        Menu { n, sel: 0, tool_focus: false, countdown: Some(TIMEOUT_SECS), ticks: 0 }
    }

    /// Key `k` pressed: any key stops the countdown; the arrows move the selection (up from
    /// the tools line to the last entry, down from the last entry to the tools line), Escape
    /// leaves the tools line, Tab moves the focus between the entries and the tools line, and
    /// Enter starts the selected entry or runs the memory test.
    pub fn key(&mut self, k: MenuKey) -> (r: MenuOutcome)
        requires
            old(self).wf(),
        ensures
            final(self).wf(),
            (*final(self), r) == key_spec(*old(self), k),
    {
        let cd_changed = self.countdown.is_some();
        self.countdown = None;
        match k {
            MenuKey::Up => {
                if self.tool_focus {
                    self.tool_focus = false;
                    self.sel = self.n - 1;
                } else if self.sel > 0 {
                    self.sel = self.sel - 1;
                }
                MenuOutcome::Continue { entries: true, countdown: cd_changed }
            },
            MenuKey::Down => {
                if !self.tool_focus {
                    if self.sel + 1 < self.n {
                        self.sel = self.sel + 1;
                    } else {
                        self.tool_focus = true;
                    }
                }
                MenuOutcome::Continue { entries: true, countdown: cd_changed }
            },
            MenuKey::Escape => {
                if self.tool_focus {
                    self.tool_focus = false;
                    MenuOutcome::Continue { entries: true, countdown: cd_changed }
                } else {
                    MenuOutcome::Continue { entries: false, countdown: cd_changed }
                }
            },
            MenuKey::Enter => {
                if self.tool_focus {
                    MenuOutcome::Memtest
                } else {
                    MenuOutcome::Boot(self.sel)
                }
            },
            MenuKey::Tab => {
                self.tool_focus = !self.tool_focus;
                MenuOutcome::Continue { entries: true, countdown: cd_changed }
            },
            MenuKey::Other => MenuOutcome::Continue { entries: false, countdown: cd_changed },
        }
    }

    /// An idle poll of 50 ms: while the countdown runs, every twentieth poll takes a second
    /// off it, and when it runs out the selected entry starts.
    pub fn idle(&mut self) -> (r: MenuOutcome)
        requires
            old(self).wf(),
        ensures
            final(self).wf(),
            (*final(self), r) == idle_spec(*old(self)),
    {
        match self.countdown {
            None => MenuOutcome::Continue { entries: false, countdown: false },
            Some(c) => {
                if self.ticks + 1 >= TICKS_PER_SEC {
                    self.ticks = 0;
                    if c <= 1 {
                        MenuOutcome::Boot(self.sel)
                    } else {
                        self.countdown = Some(c - 1);
                        MenuOutcome::Continue { entries: false, countdown: true }
                    }
                } else {
                    self.ticks = self.ticks + 1;
                    MenuOutcome::Continue { entries: false, countdown: false }
                }
            },
        }
    }
}

/// Left alone, the menu starts its selected entry after its countdown: from the opening state,
/// 200 idle polls (ten seconds) start the first entry, and none before.
pub proof fn lemma_timeout_boots(n: usize)
    requires
        n >= 1,
    ensures
        ({
            let m0 = Menu { n, sel: 0, tool_focus: false, countdown: Some(TIMEOUT_SECS), ticks: 0 };
            &&& idle_steps(m0, 199).1 is Continue
            &&& idle_spec(idle_steps(m0, 199).0).1 == MenuOutcome::Boot(0)
        }),
{
    let m0 = Menu { n, sel: 0, tool_focus: false, countdown: Some(TIMEOUT_SECS), ticks: 0 };
    lemma_idle_steps(m0, 199);
}

/// The menu after `k` idle polls with no key, and the last outcome (`Continue` when none was
/// a start).
pub open spec fn idle_steps(m: Menu, k: nat) -> (Menu, MenuOutcome)
    decreases k,
{
    if k == 0 {
        (m, MenuOutcome::Continue { entries: false, countdown: false })
    } else {
        let (m1, o1) = idle_steps(m, (k - 1) as nat);
        if o1 is Continue { idle_spec(m1) } else { (m1, o1) }
    }
}

proof fn lemma_idle_steps(m0: Menu, k: nat)
    requires
        m0.countdown == Some(TIMEOUT_SECS),
        m0.ticks == 0,
        k <= 199,
    ensures
        idle_steps(m0, k).1 is Continue,
        idle_steps(m0, k).0 == (Menu {
            ticks: (k % 20) as u32,
            countdown: Some((TIMEOUT_SECS - k / 20) as i32),
            ..m0
        }),
    decreases k,
{
    if k > 0 {
        lemma_idle_steps(m0, (k - 1) as nat);
    }
}

} // verus!
