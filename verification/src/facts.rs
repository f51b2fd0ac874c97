//! The facts and their registry, and the lines that declare initial
//! facts and queries.

use vstd::prelude::*;

use crate::error::Error;
use crate::text::{declared, declared_chars};

verus! {

/// Whether `c` names a fact: one of the capital letters `A` to `Z`.
pub open spec fn is_letter(c: char) -> bool {
    'A' <= c <= 'Z'
}

/// The place of a letter in the alphabet, counted from zero.
pub open spec fn letter_index(c: char) -> int {
    c as int - 'A' as int
}

/// The letter at a place of the alphabet, counted from zero.
pub open spec fn nth_letter(i: int) -> char {
    ('A' as int + i) as char
}

/// Whether `c` names a fact.
pub fn is_fact_letter(c: char) -> (b: bool)
    ensures
        b == is_letter(c),
{
    'A' <= c && c <= 'Z'
}

/// A named boolean variable.
#[derive(Copy, Clone, Debug, PartialEq, Eq, Structural)]
pub struct Fact {
    /// The truth value; it means something only once `determined` is set.
    pub state: bool,
    /// Whether the value is final, by declaration or by inference.
    pub determined: bool,
    /// Whether the value of this fact was asked for.
    pub queried: bool,
    pub letter: char,
}

impl Fact {
    /// The fact of a letter of which nothing is known yet.
    pub open spec fn unknown(letter: char) -> Fact {
        Fact { state: false, determined: false, queried: false, letter }
    }

    /// The fact once its value is final.
    pub open spec fn settled(self, state: bool) -> Fact {
        Fact { state, determined: true, ..self }
    }

    /// The fact once its value was asked for.
    pub open spec fn asked(self) -> Fact {
        Fact { queried: true, ..self }
    }

    /// A fact of which nothing is known yet.
    pub fn new(letter: char) -> (fact: Fact)
        ensures
            fact == Fact::unknown(letter),
    {
        Fact { state: false, determined: false, queried: false, letter }
    }

    /// A fact with the same letter, value and marks.
    pub fn copy(&self) -> (fact: Fact)
        ensures
            fact == *self,
    {
        Fact {
            state: self.state,
            determined: self.determined,
            queried: self.queried,
            letter: self.letter,
        }
    }
}

/// Whether `facts` lists the twenty-six facts in the order of the alphabet.
pub open spec fn is_registry(facts: Seq<Fact>) -> bool {
    &&& facts.len() == 26
    &&& forall|i: int| 0 <= i < 26 ==> (#[trigger] facts[i]).letter as int == 'A' as int + i
}

/// What the characters of a line of initial facts do to the registry,
/// one after the other: `#` ends the line, a letter makes its fact true
/// and final unless it is true already, and anything else is refused. The
/// registry is given back as it stood when the reading ended.
pub open spec fn declare_true(facts: Seq<Fact>, chars: Seq<char>) -> (Seq<Fact>, Result<(), Error>)
    decreases chars.len(),
{
    if chars.len() == 0 {
        (facts, Ok(()))
    } else {
        let c = chars[0];
        if c == '#' {
            (facts, Ok(()))
        } else if is_letter(c) {
            let i = letter_index(c);
            if facts[i].state {
                (facts, Err(Error::DuplicateDeclaration(c)))
            } else {
                declare_true(facts.update(i, facts[i].settled(true)), chars.drop_first())
            }
        } else {
            (facts, Err(Error::ParseError))
        }
    }
}

/// The letters of the facts that the characters of a line of initial
/// facts make true, in the order in which the line gives them.
pub open spec fn made_true(facts: Seq<Fact>, chars: Seq<char>) -> Seq<char>
    decreases chars.len(),
{
    if chars.len() == 0 {
        Seq::empty()
    } else {
        let c = chars[0];
        if c != '#' && is_letter(c) && !facts[letter_index(c)].state {
            let i = letter_index(c);
            seq![c] + made_true(facts.update(i, facts[i].settled(true)), chars.drop_first())
        } else {
            Seq::empty()
        }
    }
}

/// What the characters of a line of queries do to the registry, one after
/// the other, as [`declare_true`] but marking each letter's fact as asked
/// for.
pub open spec fn declare_asked(facts: Seq<Fact>, chars: Seq<char>) -> (
    Seq<Fact>,
    Result<(), Error>,
)
    decreases chars.len(),
{
    if chars.len() == 0 {
        (facts, Ok(()))
    } else {
        let c = chars[0];
        if c == '#' {
            (facts, Ok(()))
        } else if is_letter(c) {
            let i = letter_index(c);
            if facts[i].queried {
                (facts, Err(Error::DuplicateDeclaration(c)))
            } else {
                declare_asked(facts.update(i, facts[i].asked()), chars.drop_first())
            }
        } else {
            (facts, Err(Error::ParseError))
        }
    }
}

/// The letters of the facts that were asked for, in the order of the alphabet.
pub open spec fn asked_letters(facts: Seq<Fact>) -> Seq<char> {
    facts.filter(|f: Fact| f.queried).map_values(|f: Fact| f.letter)
}

/// The registry of the twenty-six facts.
pub struct Facts {
    pub fact_arr: [Fact; 26],
    pub is_stable: bool,
}

impl View for Facts {
    type V = Seq<Fact>;

    open spec fn view(&self) -> Seq<Fact> {
        self.fact_arr@
    }
}

impl Facts {
    /// The registry's invariant: entry `i` is the fact of the `i`-th letter.
    pub open spec fn wf(&self) -> bool {
        is_registry(self@)
    }

    /// The fact of a letter.
    pub open spec fn fact(&self, letter: char) -> Fact {
        self@[letter_index(letter)]
    }

    /// The twenty-six facts with nothing known and nothing asked for.
    pub open spec fn blank() -> Seq<Fact> {
        Seq::new(26, |i: int| Fact::unknown(nth_letter(i)))
    }

    /// The registry in which nothing is known and nothing is asked for.
    pub fn new() -> (facts: Facts)
        ensures
            facts.wf(),
            !facts.is_stable,
            facts@ == Facts::blank(),
    {
        let arr = [
            Fact::new('A'),
            Fact::new('B'),
            Fact::new('C'),
            Fact::new('D'),
            Fact::new('E'),
            Fact::new('F'),
            Fact::new('G'),
            Fact::new('H'),
            Fact::new('I'),
            Fact::new('J'),
            Fact::new('K'),
            Fact::new('L'),
            Fact::new('M'),
            Fact::new('N'),
            Fact::new('O'),
            Fact::new('P'),
            Fact::new('Q'),
            Fact::new('R'),
            Fact::new('S'),
            Fact::new('T'),
            Fact::new('U'),
            Fact::new('V'),
            Fact::new('W'),
            Fact::new('X'),
            Fact::new('Y'),
            Fact::new('Z'),
        ];
        let facts = Facts { fact_arr: arr, is_stable: false };
        assert(facts@ =~= Facts::blank());
        facts
    }

    /// Whether the registry's invariant holds.
    pub fn is_sound(&self) -> (b: bool)
        ensures
            b == self.wf(),
    {
        let mut i: usize = 0;
        while i < 26
            invariant
                i <= 26,
                forall|j: int| 0 <= j < i ==> (#[trigger] self@[j]).letter as int == 'A' as int + j,
            decreases 26 - i,
        {
            if self.fact_arr[i].letter as u32 != 'A' as u32 + i as u32 {
                return false;
            }
            i += 1;
        }
        true
    }

    /// The fact of a letter.
    pub fn get(&self, letter: char) -> (fact: &Fact)
        requires
            is_letter(letter),
        ensures
            *fact == self.fact(letter),
    {
        &self.fact_arr[self.get_index(letter)]
    }

    /// Reads a line of initial facts. White space counts for nothing; the
    /// first character that is not white space is the line's marker and is
    /// not looked at.
    pub fn set_initial_facts(&mut self, line: &str) -> (r: Result<(), Error>)
        requires
            old(self).wf(),
        ensures
            final(self).wf(),
            final(self).is_stable == old(self).is_stable,
            (final(self)@, r) == declare_true(old(self)@, declared(line@)),
    {
        let chars = declared_chars(line);
        self.declare_initial(&chars)
    }

    /// Declares initial facts from the characters of a line, white space
    /// and marker left out.
    pub fn declare_initial(&mut self, chars: &Vec<char>) -> (r: Result<(), Error>)
        requires
            old(self).wf(),
        ensures
            final(self).wf(),
            final(self).is_stable == old(self).is_stable,
            (final(self)@, r) == declare_true(old(self)@, chars@),
    {
        let n: usize = chars.len();
        let mut i: usize = 0;
        assert(chars@.skip(0) == chars@);
        while i < n
            invariant
                n == chars@.len(),
                i <= n,
                self.wf(),
                self.is_stable == old(self).is_stable,
                declare_true(old(self)@, chars@) == declare_true(self@, chars@.skip(i as int)),
            decreases n - i,
        {
            let c = chars[i];
            proof {
                assert(chars@.skip(i as int)[0] == c);
                assert(chars@.skip(i as int).drop_first() == chars@.skip(i + 1));
            }
            if c == '#' {
                return Ok(());
            } else if 'A' <= c && c <= 'Z' {
                let k = self.get_index(c);
                let fact = self.fact_arr[k];
                if fact.state {
                    return Err(Error::DuplicateDeclaration(c));
                }
                self.fact_arr[k] = Fact {
                    state: true,
                    determined: true,
                    queried: fact.queried,
                    letter: fact.letter,
                };
            } else {
                return Err(Error::ParseError);
            }
            i += 1;
        }
        assert(chars@.skip(i as int).len() == 0);
        Ok(())
    }

    /// The letters of the facts that the characters of a line of initial
    /// facts would make true in this registry, in the order of the line.
    pub fn initial_letters(&self, chars: &Vec<char>) -> (letters: Vec<char>)
        requires
            self.wf(),
        ensures
            letters@ == made_true(self@, chars@),
    {
        let mut scratch = Facts { fact_arr: self.fact_arr, is_stable: self.is_stable };
        let mut letters: Vec<char> = Vec::new();
        let n: usize = chars.len();
        let mut i: usize = 0;
        assert(chars@.skip(0) == chars@);
        assert(letters@ + made_true(scratch@, chars@) =~= made_true(self@, chars@));
        while i < n
            invariant
                n == chars@.len(),
                i <= n,
                scratch.wf(),
                made_true(self@, chars@) == letters@ + made_true(scratch@, chars@.skip(i as int)),
            decreases n - i,
        {
            let c = chars[i];
            proof {
                assert(chars@.skip(i as int)[0] == c);
                assert(chars@.skip(i as int).drop_first() == chars@.skip(i + 1));
            }
            if c == '#' || !('A' <= c && c <= 'Z') {
                assert(letters@ + Seq::<char>::empty() =~= letters@);
                return letters;
            }
            let k = scratch.get_index(c);
            let fact = scratch.fact_arr[k];
            if fact.state {
                assert(letters@ + Seq::<char>::empty() =~= letters@);
                return letters;
            }
            let ghost before = scratch@;
            scratch.fact_arr[k] = Fact {
                state: true,
                determined: true,
                queried: fact.queried,
                letter: fact.letter,
            };
            proof {
                let rest = made_true(scratch@, chars@.skip(i + 1));
                assert(made_true(before, chars@.skip(i as int)) == seq![c] + rest);
                assert(letters@.push(c) + rest =~= letters@ + (seq![c] + rest));
            }
            letters.push(c);
            i += 1;
        }
        assert(letters@ + Seq::<char>::empty() =~= letters@);
        letters
    }

    /// Reads a line of queries. White space counts for nothing; the first
    /// character that is not white space is the line's marker and is not
    /// looked at.
    pub fn set_queries(&mut self, line: &str) -> (r: Result<(), Error>)
        requires
            old(self).wf(),
        ensures
            final(self).wf(),
            final(self).is_stable == old(self).is_stable,
            (final(self)@, r) == declare_asked(old(self)@, declared(line@)),
    {
        let chars = declared_chars(line);
        self.declare_queries(&chars)
    }

    /// Declares queries from the characters of a line, white space and
    /// marker left out.
    pub fn declare_queries(&mut self, chars: &Vec<char>) -> (r: Result<(), Error>)
        requires
            old(self).wf(),
        ensures
            final(self).wf(),
            final(self).is_stable == old(self).is_stable,
            (final(self)@, r) == declare_asked(old(self)@, chars@),
    {
        let n: usize = chars.len();
        let mut i: usize = 0;
        assert(chars@.skip(0) == chars@);
        while i < n
            invariant
                n == chars@.len(),
                i <= n,
                self.wf(),
                self.is_stable == old(self).is_stable,
                declare_asked(old(self)@, chars@) == declare_asked(self@, chars@.skip(i as int)),
            decreases n - i,
        {
            let c = chars[i];
            proof {
                assert(chars@.skip(i as int)[0] == c);
                assert(chars@.skip(i as int).drop_first() == chars@.skip(i + 1));
            }
            if c == '#' {
                return Ok(());
            } else if 'A' <= c && c <= 'Z' {
                let k = self.get_index(c);
                let fact = self.fact_arr[k];
                if fact.queried {
                    return Err(Error::DuplicateDeclaration(c));
                }
                self.fact_arr[k] = Fact {
                    state: fact.state,
                    determined: fact.determined,
                    queried: true,
                    letter: fact.letter,
                };
            } else {
                return Err(Error::ParseError);
            }
            i += 1;
        }
        assert(chars@.skip(i as int).len() == 0);
        Ok(())
    }

    /// The place in the registry of the fact of a letter.
    pub fn get_index(&self, letter: char) -> (i: usize)
        requires
            is_letter(letter),
        ensures
            i == letter_index(letter),
            i < 26,
    {
        (letter as u32 - 'A' as u32) as usize
    }
}

} // verus!
