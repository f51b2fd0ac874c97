//! The switches of a run.

use vstd::prelude::*;

verus! {

/// The switches of a run. They steer what is shown, never what is inferred.
#[derive(Copy, Clone, Debug, PartialEq, Eq, Structural)]
pub struct Options {
    /// Draw the expression tree of each query.
    pub graph: bool,
    /// Ask for the initial facts and the queries at the keyboard.
    pub interactive: bool,
    /// Show the reasoning behind each answer.
    pub reasoning: bool,
    /// Echo the rule file.
    pub file: bool,
    /// Write the answers to a log file.
    pub log: bool,
    /// Echo the comment lines of the rule file.
    pub comment: bool,
}

impl Options {
    /// The options with every switch off.
    pub open spec fn all_off() -> Options {
        Options {
            graph: false,
            interactive: false,
            reasoning: false,
            file: false,
            log: false,
            comment: false,
        }
    }

    /// The options with every switch off.
    pub fn new() -> (options: Options)
        ensures
            options == Options::all_off(),
    {
        Options {
            graph: false,
            interactive: false,
            reasoning: false,
            file: false,
            log: false,
            comment: false,
        }
    }

    /// Switches on every option whose letter occurs in `options`; other
    /// characters are passed over, and nothing is switched off.
    pub fn load(&mut self, options: &str)
        ensures
            final(self).graph == (old(self).graph || options@.contains('g')),
            final(self).interactive == (old(self).interactive || options@.contains('i')),
            final(self).reasoning == (old(self).reasoning || options@.contains('r')),
            final(self).file == (old(self).file || options@.contains('f')),
            final(self).log == (old(self).log || options@.contains('l')),
            final(self).comment == (old(self).comment || options@.contains('c')),
    {
        let n: usize = options.unicode_len();
        let mut i: usize = 0;
        while i < n
            invariant
                n == options@.len(),
                i <= n,
                self.graph == (old(self).graph || options@.take(i as int).contains('g')),
                self.interactive == (old(self).interactive || options@.take(i as int).contains(
                    'i',
                )),
                self.reasoning == (old(self).reasoning || options@.take(i as int).contains('r')),
                self.file == (old(self).file || options@.take(i as int).contains('f')),
                self.log == (old(self).log || options@.take(i as int).contains('l')),
                self.comment == (old(self).comment || options@.take(i as int).contains('c')),
            decreases n - i,
        {
            let c = options.get_char(i);
            proof {
                let before = options@.take(i as int);
                let after = options@.take(i + 1);
                assert(after == before.push(c));
                assert forall|x: char| after.contains(x) == (before.contains(x) || x == c) by {
                    if before.contains(x) {
                        let k = choose|k: int| 0 <= k < before.len() && before[k] == x;
                        assert(after[k] == x);
                    }
                    if x == c {
                        assert(after[i as int] == x);
                    }
                }
            }
            match c {
                'g' => self.graph = true,
                'i' => self.interactive = true,
                'r' => self.reasoning = true,
                'f' => self.file = true,
                'l' => self.log = true,
                'c' => self.comment = true,
                _ => {},
            }
            i += 1;
        }
        assert(options@.take(n as int) == options@);
    }
}

impl Default for Options {
    fn default() -> (options: Options)
        ensures
            options == Options::all_off(),
    {
        Options::new()
    }
}

} // verus!
