use vstd::prelude::*;

verus! {

/// The keys the applications react to; every other key is `Other`.
#[derive(Clone, Copy, Debug, PartialEq, Eq, Structural)]
pub enum Key {
    Left,
    Right,
    Up,
    Down,
    Esc,
    Char(char),
    Other,
}

/// Something driven by a terminal event loop.
pub trait Executable {
    /// Whether the loop should keep running.
    fn is_running(&self) -> bool;

    /// Called on every tick of the loop.
    fn tick(&self) {
    }
}

/// A counter application: arrows change the counter, `Esc`, `q` and
/// `Ctrl-C` stop it.
#[derive(Debug)]
pub struct App {
    /// Whether the application is running.
    pub running: bool,
    /// The counter.
    pub counter: u8,
}

impl Default for App {
    fn default() -> (r: Self)
        ensures
            r.running,
            r.counter == 0,
    {
        App { running: true, counter: 0 }
    }
}

impl App {
    /// A running application with the counter at zero.
    pub fn new() -> (r: Self)
        ensures
            r.running,
            r.counter == 0,
    {
        App { running: true, counter: 0 }
    }

    /// Stops the application.
    pub fn quit(&mut self)
        ensures
            !final(self).running,
            final(self).counter == old(self).counter,
    {
        self.running = false;
    }

    /// Adds one to the counter, which stays at its maximum.
    pub fn increment_counter(&mut self)
        ensures
            final(self).running == old(self).running,
            final(self).counter == if old(self).counter < u8::MAX {
                (old(self).counter + 1) as u8
            } else {
                old(self).counter
            },
    {
        if let Some(res) = self.counter.checked_add(1) {
            self.counter = res;
        }
    }

    /// Takes one from the counter, which stays at zero.
    pub fn decrement_counter(&mut self)
        ensures
            final(self).running == old(self).running,
            final(self).counter == if old(self).counter > 0 {
                (old(self).counter - 1) as u8
            } else {
                old(self).counter
            },
    {
        if let Some(res) = self.counter.checked_sub(1) {
            self.counter = res;
        }
    }

    /// Reacts to a key press; `control` tells whether Control was held.
    pub fn handle_key_event(&mut self, key: Key, control: bool)
        ensures
            ({
                let stop = key == Key::Esc || key == Key::Char('q') || (control && (key
                    == Key::Char('c') || key == Key::Char('C')));
                &&& final(self).running == (old(self).running && !stop)
                &&& final(self).counter == if key == Key::Right && old(self).counter < u8::MAX {
                    (old(self).counter + 1) as u8
                } else if key == Key::Left && old(self).counter > 0 {
                    (old(self).counter - 1) as u8
                } else {
                    old(self).counter
                }
            }),
    {
        match key {
            Key::Esc | Key::Char('q') => {
                self.quit();
            },
            Key::Char('c') | Key::Char('C') => {
                if control {
                    self.quit();
                }
            },
            Key::Right => {
                self.increment_counter();
            },
            Key::Left => {
                self.decrement_counter();
            },
            _ => {},
        }
    }
}

impl Executable for App {
    fn is_running(&self) -> bool {
        self.running
    }
}

/// The editor's application state: whether it is to exit, and a counter
/// moved by the arrow keys.
pub struct Application {
    pub exit: bool,
    pub counter: u8,
}

impl Application {
    pub fn new() -> (r: Self)
        ensures
            !r.exit,
            r.counter == 0,
    {
        Application { exit: false, counter: 0 }
    }

    pub fn can_exit(&self) -> (r: bool)
        ensures
            r == self.exit,
    {
        self.exit
    }

    pub fn toggle_exit(&mut self)
        ensures
            final(self).exit == !old(self).exit,
            final(self).counter == old(self).counter,
    {
        self.exit = !self.exit;
    }

    /// Reacts to a key press: Left and Right step the counter within its
    /// range, Up and Down set it to its maximum and to zero, `q` and `Esc`
    /// toggle exiting.
    pub fn handle_key_press(&mut self, key: Key)
        ensures
            final(self).exit == (old(self).exit != (key == Key::Char('q') || key == Key::Esc)),
            final(self).counter == match key {
                Key::Left => if old(self).counter > 0 {
                    (old(self).counter - 1) as u8
                } else {
                    0u8
                },
                Key::Right => if old(self).counter < u8::MAX {
                    (old(self).counter + 1) as u8
                } else {
                    u8::MAX
                },
                Key::Up => u8::MAX,
                Key::Down => 0u8,
                _ => old(self).counter,
            },
    {
        match key {
            Key::Left => {
                if self.counter > 0 {
                    self.counter -= 1;
                }
            },
            Key::Right => {
                if self.counter < u8::MAX {
                    self.counter += 1;
                }
            },
            Key::Up => {
                self.counter = u8::MAX;
            },
            Key::Down => {
                self.counter = 0;
            },
            Key::Char(c) => {
                if c == 'q' {
                    self.toggle_exit();
                }
            },
            Key::Esc => {
                self.toggle_exit();
            },
            Key::Other => {},
        }
    }
}

} // verus!
