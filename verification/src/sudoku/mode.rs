//! The editor's input modes.
use crate::text::decimal;
use crate::text::push_decimal;
use vstd::prelude::*;

verus! {

/// The mode an editor is in. `Highlight` holds the digit that is
/// highlighted (0 for none), `Go` the row digit typed so far (0 for none),
/// `Custom` a mode named by the user's key maps.
#[derive(Debug)]
pub enum Mode {
    Command,
    Normal,
    Highlight(u8),
    Insert,
    Note,
    Go(u8),
    Custom(String),
}

impl Mode {
    /// The name under which key maps refer to the mode: the variant's name
    /// in lower case, with its digit in brackets for `Highlight`, without
    /// it for `Go`; a custom mode's own name.
    pub open spec fn name(self) -> Seq<char> {
        match self {
            Mode::Command => seq!['c', 'o', 'm', 'm', 'a', 'n', 'd'],
            Mode::Normal => seq!['n', 'o', 'r', 'm', 'a', 'l'],
            Mode::Highlight(n) => seq!['h', 'i', 'g', 'h', 'l', 'i', 'g', 'h', 't', '('] + decimal(
                n as nat,
            ) + seq![')'],
            Mode::Insert => seq!['i', 'n', 's', 'e', 'r', 't'],
            Mode::Note => seq!['n', 'o', 't', 'e'],
            Mode::Go(_) => seq!['g', 'o'],
            Mode::Custom(s) => s@,
        }
    }

    /// The mode's `name` as a string.
    pub fn to_string(&self) -> (s: String)
        ensures
            s@ == self.name(),
    {
        proof {
            reveal_strlit("command");
            reveal_strlit("normal");
            reveal_strlit("highlight(");
            reveal_strlit(")");
            reveal_strlit("insert");
            reveal_strlit("note");
            reveal_strlit("go");
        }
        match self {
            Mode::Command => {
                let s = String::from_str("command");
                assert(s@ =~= self.name());
                s
            },
            Mode::Normal => {
                let s = String::from_str("normal");
                assert(s@ =~= self.name());
                s
            },
            Mode::Highlight(n) => {
                let mut s = String::from_str("highlight(");
                push_decimal(&mut s, *n as usize);
                s.append(")");
                assert(s@ =~= self.name());
                s
            },
            Mode::Insert => {
                let s = String::from_str("insert");
                assert(s@ =~= self.name());
                s
            },
            Mode::Note => {
                let s = String::from_str("note");
                assert(s@ =~= self.name());
                s
            },
            Mode::Go(_) => {
                let s = String::from_str("go");
                assert(s@ =~= self.name());
                s
            },
            Mode::Custom(name) => name.clone(),
        }
    }
}

} // verus!
