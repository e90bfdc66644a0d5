//! How an editor takes the keyboard's input.
use crate::input::Clipboard;
use crate::input::Input;
use crate::input::Key;
use crate::settings::opts::Opts;
use crate::settings::Keymaps;
use crate::sudoku::commands::clipboard_ok;
use crate::sudoku::mode::Mode;
use crate::sudoku::sudoku_board::is_digit_char;
use crate::sudoku::Sudoku;
use crate::text::decimal;
use crate::text::find_char;
use crate::text::pop_char;
use crate::text::position_of;
use crate::text::push_char;
use crate::text::push_decimal;
use crate::text::split;
use crate::text::split_on;
use vstd::prelude::*;

verus! {

/// A command line without its last word: characters are taken from the
/// end up to and with the first space, underscore or apostrophe.
pub open spec fn without_last_word(line: Seq<char>) -> Seq<char>
    decreases line.len(),
{
    if line.len() == 0 {
        line
    } else if line.last() == ' ' || line.last() == '_' || line.last() == '\'' {
        line.drop_last()
    } else {
        without_last_word(line.drop_last())
    }
}

/// A count with one more digit typed: ten times the count plus the digit,
/// but no more than 255.
pub open spec fn count_with(count: u8, digit: int) -> u8 {
    let tenfold: int = if count * 10 > 255 {
        255
    } else {
        count * 10
    };
    if tenfold + digit > 255 {
        255u8
    } else {
        (tenfold + digit) as u8
    }
}

/// The commands `cmds`, `rounds` times over.
pub open spec fn rounds_of(cmds: Seq<Seq<char>>, rounds: int) -> Seq<Seq<char>>
    decreases rounds,
{
    if rounds <= 0 {
        Seq::empty()
    } else {
        rounds_of(cmds, rounds - 1) + cmds
    }
}

impl Sudoku {
    /// `after` is `self` with nothing typed: no keys of a binding and no
    /// count.
    pub open spec fn flushed(self, after: Sudoku) -> bool {
        &&& after.curr_keybind@.len() == 0
        &&& after.repeat == 0
        &&& self.same_board(after)
        &&& self.same_log_and_marks(after)
        &&& self.same_cursor(after)
        &&& after.mode == self.mode
        &&& after.cmd@ == self.cmd@
    }

    /// The commands `queue` have run, first to last.
    pub open spec fn ran(
        self,
        after: Sudoku,
        queue: Seq<Seq<char>>,
        opts: Opts,
        opts_after: Opts,
        clipboard: Clipboard,
    ) -> bool
        decreases queue.len(),
    {
        if queue.len() == 0 {
            after == self && opts_after == opts
        } else {
            exists|mid: Sudoku, opts_mid: Opts|
                #![trigger mid.processed(after, queue.last(), opts_mid, opts_after, clipboard)]
                self.ran(mid, queue.drop_last(), opts, opts_mid, clipboard) && mid.processed(
                    after,
                    queue.last(),
                    opts_mid,
                    opts_after,
                    clipboard,
                )
        }
    }

    /// One more command has run.
    pub proof fn lemma_ran_step(
        self,
        mid: Sudoku,
        after: Sudoku,
        queue: Seq<Seq<char>>,
        cmd: Seq<char>,
        opts: Opts,
        opts_mid: Opts,
        opts_after: Opts,
        clipboard: Clipboard,
    )
        requires
            self.ran(mid, queue, opts, opts_mid, clipboard),
            mid.processed(after, cmd, opts_mid, opts_after, clipboard),
        ensures
            self.ran(after, queue.push(cmd), opts, opts_after, clipboard),
    {
        assert(queue.push(cmd).drop_last() =~= queue);
        assert(queue.push(cmd).last() == cmd);
        assert(self.ran(mid, queue.push(cmd).drop_last(), opts, opts_mid, clipboard));
        assert(mid.processed(after, queue.push(cmd).last(), opts_mid, opts_after, clipboard));
    }

    /// The keys typed so far are bound in the editor's mode.
    pub open spec fn key_bound(self, keymaps: Keymaps) -> bool {
        keymaps@.dom().contains((self.mode.name(), self.curr_keybind@))
    }

    /// What `try_keybind` leaves if the keys typed so far are bound. An
    /// action with a `;` in it is a list of commands: they are run, as many
    /// rounds as the count says and once if there is none. Any other
    /// action is one command, run with the count in front. Then the keys
    /// and the count are forgotten.
    pub open spec fn bound_ran(
        self,
        after: Sudoku,
        keymaps: Keymaps,
        opts: Opts,
        opts_after: Opts,
        clipboard: Clipboard,
    ) -> bool {
        let action = keymaps@[(self.mode.name(), self.curr_keybind@)];
        let rounds: int = if self.repeat > 0 {
            self.repeat as int
        } else {
            1
        };
        exists|last: Sudoku|
            #![trigger last.flushed(after)]
            last.flushed(after) && (if position_of(action, ';') >= 0 {
                self.ran(last, rounds_of(split_on(action, ';'), rounds), opts, opts_after, clipboard)
            } else {
                self.processed(
                    last,
                    decimal(self.repeat as nat) + action,
                    opts,
                    opts_after,
                    clipboard,
                )
            })
    }

    /// Runs the action that the keys typed so far are bound to in the
    /// editor's mode: see `bound_ran`. Returns whether there is one; if
    /// not, nothing changes.
    pub fn try_keybind(&mut self, keymaps: &Keymaps, opts: &mut Opts, clipboard: &Clipboard) -> (bound:
        bool)
        requires
            old(self).wf(),
            clipboard_ok(*clipboard),
        ensures
            final(self).wf(),
            bound == old(self).key_bound(*keymaps),
            !bound ==> *final(self) == *old(self) && *final(opts) == *old(opts),
            bound ==> old(self).bound_ran(*final(self), *keymaps, *old(opts), *final(opts), *clipboard),
    {
        let mode: String = self.mode.to_string();
        let action: String = match keymaps.get(mode.as_str(), self.curr_keybind.as_str()) {
            Some(action) => action.clone(),
            None => {
                return false;
            },
        };
        let ghost origin = *self;
        let ghost opts0 = *opts;
        proof {
            crate::text::lemma_position_of(action@, ';');
        }
        if find_char(action.as_str(), ';').is_some() {
            let commands: Vec<&str> = split(action.as_str(), ';');
            let ghost cmds = split_on(action@, ';');
            let n: usize = commands.len();
            let rounds: u8 = if self.repeat > 0 {
                self.repeat
            } else {
                1
            };
            let mut round: u8 = 0;
            while round < rounds
                invariant
                    round <= rounds,
                    n == cmds.len(),
                    n > 0,
                    commands@.len() == n,
                    forall|i: int| 0 <= i < n ==> (#[trigger] commands@[i])@ == cmds[i],
                    self.wf(),
                    clipboard_ok(*clipboard),
                    origin.ran(*self, rounds_of(cmds, round as int), opts0, *opts, *clipboard),
                decreases rounds - round,
            {
                let mut c: usize = 0;
                proof {
                    assert(rounds_of(cmds, round as int) + cmds.take(0) =~= rounds_of(
                        cmds,
                        round as int,
                    ));
                }
                while c < n
                    invariant
                        round < rounds,
                        c <= n,
                        n == cmds.len(),
                        n > 0,
                        commands@.len() == n,
                        forall|i: int| 0 <= i < n ==> (#[trigger] commands@[i])@ == cmds[i],
                        self.wf(),
                        clipboard_ok(*clipboard),
                        origin.ran(
                            *self,
                            rounds_of(cmds, round as int) + cmds.take(c as int),
                            opts0,
                            *opts,
                            *clipboard,
                        ),
                    decreases n - c,
                {
                    let ghost prev = *self;
                    let ghost prev_opts = *opts;
                    let ghost queue = rounds_of(cmds, round as int) + cmds.take(c as int);
                    self.process_cmd(commands[c], opts, clipboard);
                    proof {
                        origin.lemma_ran_step(
                            prev,
                            *self,
                            queue,
                            cmds[c as int],
                            opts0,
                            prev_opts,
                            *opts,
                            *clipboard,
                        );
                        assert(queue.push(cmds[c as int]) =~= rounds_of(cmds, round as int)
                            + cmds.take(c + 1));
                    }
                    c += 1;
                }
                proof {
                    assert(cmds.take(n as int) =~= cmds);
                }
                round += 1;
            }
        } else {
            let mut cmd: String = String::new();
            push_decimal(&mut cmd, self.repeat as usize);
            cmd.append(action.as_str());
            assert(cmd@ =~= decimal(self.repeat as nat) + action@);
            self.process_cmd(cmd.as_str(), opts, clipboard);
        }
        let ghost last = *self;
        self.flush();
        assert(last.flushed(*self));
        true
    }

    /// Whether the keys typed so far begin a binding of the editor's mode.
    pub fn matching_keymap_exists(&self, keymaps: &Keymaps) -> (found: bool)
        ensures
            found == keymaps.spec_has_prefix(self.mode.name(), self.curr_keybind@),
    {
        let curr_mode: String = self.mode.to_string();
        keymaps.has_prefix(curr_mode.as_str(), self.curr_keybind.as_str())
    }

    /// `after` is `self` with the key `c` typed.
    pub open spec fn typed(self, after: Sudoku, c: char) -> bool {
        &&& after.curr_keybind@ == self.curr_keybind@.push(c)
        &&& after.repeat == self.repeat
        &&& self.same_board(after)
        &&& self.same_log_and_marks(after)
        &&& self.same_cursor(after)
        &&& after.mode == self.mode
        &&& after.cmd@ == self.cmd@
    }

    /// What `update_keybind` leaves when the key `c` is typed. If the keys
    /// typed so far, with `c`, are bound, their action is run. If they
    /// begin a binding, they are kept. If not, they are forgotten, and
    /// the count with them.
    pub open spec fn keyed(
        self,
        after: Sudoku,
        c: char,
        keymaps: Keymaps,
        opts: Opts,
        opts_after: Opts,
        clipboard: Clipboard,
    ) -> bool {
        exists|with_key: Sudoku|
            #![trigger self.typed(with_key, c)]
            self.typed(with_key, c) && (if with_key.key_bound(keymaps) {
                with_key.bound_ran(after, keymaps, opts, opts_after, clipboard)
            } else {
                opts_after == opts && (if keymaps.spec_has_prefix(
                    with_key.mode.name(),
                    with_key.curr_keybind@,
                ) {
                    after == with_key
                } else {
                    with_key.flushed(after)
                })
            })
    }

    /// Takes a key that belongs to a binding: see `keyed`.
    pub fn update_keybind(
        &mut self,
        c: char,
        keymaps: &Keymaps,
        opts: &mut Opts,
        clipboard: &Clipboard,
    )
        requires
            old(self).wf(),
            clipboard_ok(*clipboard),
        ensures
            final(self).wf(),
            old(self).keyed(*final(self), c, *keymaps, *old(opts), *final(opts), *clipboard),
    {
        push_char(&mut self.curr_keybind, c);
        let ghost with_key = *self;
        assert(old(self).typed(with_key, c));
        if !self.try_keybind(keymaps, opts, clipboard) {
            if !self.matching_keymap_exists(keymaps) {
                self.flush();
            }
        }
    }
}

/// The value of the digit character `c`.
pub open spec fn digit_value(c: char) -> int {
    c as int - '0' as int
}

impl Sudoku {
    /// What the escape key leaves: normal mode, no marks, nothing typed.
    pub open spec fn escaped(self, after: Sudoku) -> bool {
        &&& after.mode == Mode::Normal
        &&& forall|y: int| 0 <= y < 9 ==> #[trigger] after.selected.0@[y] == 0
        &&& after.curr_keybind@.len() == 0
        &&& after.repeat == 0
        &&& self.same_board(after)
        &&& self.same_cursor(after)
        &&& after.history@ == self.history@
        &&& after.cmd@ == self.cmd@
    }

    /// What a digit typed as part of a count leaves.
    pub open spec fn counted(self, after: Sudoku, c: char) -> bool {
        &&& after.repeat == count_with(self.repeat, digit_value(c))
        &&& after.curr_keybind@ == self.curr_keybind@
        &&& self.same_board(after)
        &&& self.same_log_and_marks(after)
        &&& self.same_cursor(after)
        &&& after.mode == self.mode
        &&& after.cmd@ == self.cmd@
    }

    /// What a key leaves in command mode. Backspace takes the last
    /// character off the command line, or the last word if the control key
    /// is down. Enter runs the command line. With any other key, a typed
    /// character is added to the command line if it is ASCII.
    pub open spec fn command_keyed(
        self,
        after: Sudoku,
        input: Input,
        opts: Opts,
        opts_after: Opts,
        clipboard: Clipboard,
        taken: bool,
    ) -> bool {
        match input.last_key {
            None => after == self && opts_after == opts && !taken,
            Some(Key::Backspace) => {
                &&& !taken
                &&& opts_after == opts
                &&& self.same_but_cmd(after)
                &&& after.cmd@ == (if input.ctrl_down {
                    without_last_word(self.cmd@)
                } else if self.cmd@.len() > 0 {
                    self.cmd@.drop_last()
                } else {
                    self.cmd@
                })
            },
            Some(Key::Enter) => !taken && self.processed(
                after,
                self.cmd@,
                opts,
                opts_after,
                clipboard,
            ),
            Some(_) => match input.ch {
                None => after == self && opts_after == opts && !taken,
                Some(ch) => {
                    &&& taken
                    &&& opts_after == opts
                    &&& self.same_but_cmd(after)
                    &&& after.cmd@ == (if ch as u32 <= 0x7f {
                        self.cmd@.push(ch)
                    } else {
                        self.cmd@
                    })
                },
            },
        }
    }

    /// What a typed character leaves outside command mode.
    pub open spec fn char_keyed(
        self,
        after: Sudoku,
        c: char,
        keymaps: Keymaps,
        opts: Opts,
        opts_after: Opts,
        clipboard: Clipboard,
    ) -> bool {
        match self.mode {
            Mode::Normal => if c == ':' {
                &&& opts_after == opts
                &&& after.mode == Mode::Command
                &&& after.cmd@.len() == 0
                &&& after.curr_keybind@.len() == 0
                &&& after.repeat == 0
                &&& self.same_board(after)
                &&& self.same_log_and_marks(after)
                &&& self.same_cursor(after)
            } else if is_digit_char(c) {
                opts_after == opts && self.counted(after, c)
            } else {
                self.keyed(after, c, keymaps, opts, opts_after, clipboard)
            },
            Mode::Custom(_) => if is_digit_char(c) {
                opts_after == opts && self.counted(after, c)
            } else {
                self.keyed(after, c, keymaps, opts, opts_after, clipboard)
            },
            Mode::Note => if is_digit_char(c) {
                self.processed(after, seq![c] + "note"@, opts, opts_after, clipboard)
            } else {
                self.keyed(after, c, keymaps, opts, opts_after, clipboard)
            },
            Mode::Insert => if is_digit_char(c) {
                self.processed(after, seq![c] + "insert"@, opts, opts_after, clipboard)
            } else {
                self.keyed(after, c, keymaps, opts, opts_after, clipboard)
            },
            Mode::Go(row) => if is_digit_char(c) && c != '0' {
                if row == 0 {
                    &&& opts_after == opts
                    &&& after.mode == Mode::Go(digit_value(c) as u8)
                    &&& self.same_but_mode(after)
                } else {
                    self.processed(
                        after,
                        decimal(self.row as nat) + seq![c] + "go"@,
                        opts,
                        opts_after,
                        clipboard,
                    )
                }
            } else if c == '0' {
                after == self && opts_after == opts
            } else {
                self.keyed(after, c, keymaps, opts, opts_after, clipboard)
            },
            Mode::Highlight(_) => if is_digit_char(c) {
                &&& opts_after == opts
                &&& after.mode == Mode::Highlight(digit_value(c) as u8)
                &&& self.same_but_mode(after)
            } else {
                self.keyed(after, c, keymaps, opts, opts_after, clipboard)
            },
            Mode::Command => false,
        }
    }

    /// What one tick's input leaves, and whether the typed character was
    /// taken. The escape key, held down, goes first. In command mode keys
    /// edit and run the command line. In the other modes a typed character
    /// is a digit of a count, a digit for the mode's own use, or a key of a
    /// binding.
    pub open spec fn handled(
        self,
        after: Sudoku,
        input: Input,
        keymaps: Keymaps,
        opts: Opts,
        opts_after: Opts,
        clipboard: Clipboard,
        taken: bool,
    ) -> bool {
        if input.escape_down {
            self.escaped(after) && opts_after == opts && !taken
        } else if self.mode is Command {
            self.command_keyed(after, input, opts, opts_after, clipboard, taken)
        } else {
            match input.ch {
                None => after == self && opts_after == opts && !taken,
                Some(c) => taken && self.char_keyed(
                    after,
                    c,
                    keymaps,
                    opts,
                    opts_after,
                    clipboard,
                ),
            }
        }
    }

    /// Adds a typed digit to the count.
    fn count_digit(&mut self, c: char)
        requires
            is_digit_char(c),
        ensures
            old(self).counted(*final(self), c),
            old(self).wf() ==> final(self).wf(),
    {
        let digit: u8 = c as u8 - 48u8;
        let tenfold: u8 = if self.repeat > 25 {
            255
        } else {
            self.repeat * 10
        };
        self.repeat = if tenfold > 255 - digit {
            255
        } else {
            tenfold + digit
        };
    }

    /// Takes one tick's input: see `handled`.
    pub fn handle_input(
        &mut self,
        input: &Input,
        keymaps: &Keymaps,
        opts: &mut Opts,
        clipboard: &Clipboard,
    ) -> (taken: bool)
        requires
            old(self).wf(),
            clipboard_ok(*clipboard),
        ensures
            final(self).wf(),
            old(self).handled(
                *final(self),
                *input,
                *keymaps,
                *old(opts),
                *final(opts),
                *clipboard,
                taken,
            ),
    {
        // global base case
        if input.escape_down {
            self.mode = Mode::Normal;
            self.selected.clear();
            self.flush();
            return false;
        }
        proof {
            reveal_strlit("note");
            reveal_strlit("insert");
            reveal_strlit("go");
        }
        match &self.mode {
            Mode::Normal => {
                match input.ch {
                    Some(c) => {
                        if c == ':' {
                            self.mode = Mode::Command;
                            self.cmd = String::new();
                            self.flush();
                        } else if c >= '0' && c <= '9' {
                            self.count_digit(c);
                        } else {
                            self.update_keybind(c, keymaps, opts, clipboard);
                        }
                        true
                    },
                    None => false,
                }
            },
            Mode::Command => {
                match input.last_key {
                    Some(Key::Backspace) => {
                        if input.ctrl_down {
                            loop
                                invariant_except_break
                                    without_last_word(self.cmd@) == without_last_word(old(self).cmd@),
                                invariant
                                    old(self).same_but_cmd(*self),
                                    self.wf(),
                                ensures
                                    self.cmd@ == without_last_word(old(self).cmd@),
                                    old(self).same_but_cmd(*self),
                                    self.wf(),
                                decreases self.cmd@.len(),
                            {
                                match pop_char(&mut self.cmd) {
                                    Some(val) => {
                                        if val == ' ' || val == '_' || val == '\'' {
                                            break ;
                                        }
                                    },
                                    None => {
                                        break ;
                                    },
                                }
                            }
                        } else {
                            pop_char(&mut self.cmd);
                        }
                        false
                    },
                    Some(Key::Enter) => {
                        let line: String = self.cmd.clone();
                        self.process_cmd(line.as_str(), opts, clipboard);
                        false
                    },
                    Some(_) => {
                        match input.ch {
                            Some(ch) => {
                                if ch as u32 <= 0x7f {
                                    push_char(&mut self.cmd, ch);
                                }
                                true
                            },
                            None => false,
                        }
                    },
                    None => false,
                }
            },
            Mode::Note => {
                match input.ch {
                    Some(c) => {
                        if c >= '0' && c <= '9' {
                            let mut line: String = String::new();
                            push_char(&mut line, c);
                            line.append("note");
                            assert(line@ =~= seq![c] + "note"@);
                            self.process_cmd(line.as_str(), opts, clipboard);
                        } else {
                            self.update_keybind(c, keymaps, opts, clipboard);
                        }
                        true
                    },
                    None => false,
                }
            },
            Mode::Insert => {
                match input.ch {
                    Some(c) => {
                        if c >= '0' && c <= '9' {
                            let mut line: String = String::new();
                            push_char(&mut line, c);
                            line.append("insert");
                            assert(line@ =~= seq![c] + "insert"@);
                            self.process_cmd(line.as_str(), opts, clipboard);
                        } else {
                            self.update_keybind(c, keymaps, opts, clipboard);
                        }
                        true
                    },
                    None => false,
                }
            },
            Mode::Go(row) => {
                let row: u8 = *row;
                match input.ch {
                    Some(c) => {
                        if c >= '1' && c <= '9' {
                            if row == 0 {
                                self.mode = Mode::Go(c as u8 - 48u8);
                            } else {
                                let mut line: String = String::new();
                                push_decimal(&mut line, self.row as usize);
                                push_char(&mut line, c);
                                line.append("go");
                                assert(line@ =~= decimal(self.row as nat) + seq![c] + "go"@);
                                self.process_cmd(line.as_str(), opts, clipboard);
                            }
                        } else if c == '0' {
                        } else {
                            self.update_keybind(c, keymaps, opts, clipboard);
                        }
                        true
                    },
                    None => false,
                }
            },
            Mode::Custom(_) => {
                match input.ch {
                    Some(c) => {
                        if c >= '0' && c <= '9' {
                            self.count_digit(c);
                        } else {
                            self.update_keybind(c, keymaps, opts, clipboard);
                        }
                        true
                    },
                    None => false,
                }
            },
            Mode::Highlight(_) => {
                match input.ch {
                    Some(c) => {
                        if c >= '0' && c <= '9' {
                            self.mode = Mode::Highlight(c as u8 - 48u8);
                        } else {
                            self.update_keybind(c, keymaps, opts, clipboard);
                        }
                        true
                    },
                    None => false,
                }
            },
        }
    }

    /// Takes one tick's input: see `handled`.
    pub fn update(
        &mut self,
        input: &Input,
        keymaps: &Keymaps,
        opts: &mut Opts,
        clipboard: &Clipboard,
    ) -> (taken: bool)
        requires
            old(self).wf(),
            clipboard_ok(*clipboard),
        ensures
            final(self).wf(),
            old(self).handled(
                *final(self),
                *input,
                *keymaps,
                *old(opts),
                *final(opts),
                *clipboard,
                taken,
            ),
    {
        self.handle_input(input, keymaps, opts, clipboard)
    }
}

} // verus!
