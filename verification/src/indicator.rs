//! The turning symbol that shows that a walk is still going on.
use vstd::prelude::*;

verus! {

/// A sign that work is going on: one of a cycle of symbols, followed by a
/// label.
#[derive(Debug)]
pub struct Indicator {
    symbols: Vec<char>,
    label: String,
    index: usize,
}

/// `| / - \`
pub fn ascii() -> (symbols: Vec<char>)
    ensures
        symbols@ == seq!['|', '/', '-', '\\'],
{
    vec!['|', '/', '-', '\\']
}

/// The quarters of a circle, turning.
pub fn white_circle() -> (symbols: Vec<char>)
    ensures
        symbols@ == seq!['\u{25F7}', '\u{25F6}', '\u{25F5}', '\u{25F4}'],
{
    vec!['\u{25F7}', '\u{25F6}', '\u{25F5}', '\u{25F4}']
}

/// Pairs of braille dots, turning.
pub fn braille_double() -> (symbols: Vec<char>)
    ensures
        symbols@ == seq!['\u{2818}', '\u{2830}', '\u{2824}', '\u{2806}', '\u{2803}', '\u{2809}'],
{
    vec!['\u{2818}', '\u{2830}', '\u{2824}', '\u{2806}', '\u{2803}', '\u{2809}']
}

impl Indicator {
    /// The cycle of symbols.
    pub closed spec fn symbols(&self) -> Seq<char> {
        self.symbols@
    }

    /// The label.
    pub closed spec fn label(&self) -> Seq<char> {
        self.label@
    }

    /// The position in the cycle.
    pub closed spec fn position(&self) -> nat {
        self.index as nat
    }

    /// The cycle has a symbol, and the position is one of the cycle.
    pub open spec fn wf(&self) -> bool {
        self.position() < self.symbols().len()
    }

    /// An indicator at the first of `symbols`. It can step and be rendered
    /// only if there is a symbol.
    pub fn new(symbols: &[char], label: String) -> (indicator: Self)
        ensures
            indicator.wf() == (symbols@.len() > 0),
            indicator.symbols() == symbols@,
            indicator.label() == label@,
            indicator.position() == 0,
    {
        let mut cycle: Vec<char> = Vec::new();
        let mut i: usize = 0;
        while i < symbols.len()
            invariant
                i <= symbols@.len(),
                cycle@ == symbols@.take(i as int),
            decreases symbols@.len() - i,
        {
            cycle.push(symbols[i]);
            assert(cycle@ =~= symbols@.take(i + 1));
            i += 1;
        }
        assert(symbols@.take(symbols@.len() as int) =~= symbols@);
        Self { symbols: cycle, label, index: 0 }
    }

    /// Moves on to the next symbol, from the last back to the first.
    pub fn next_step(&mut self)
        requires
            old(self).wf(),
        ensures
            final(self).wf(),
            final(self).symbols() == old(self).symbols(),
            final(self).label() == old(self).label(),
            final(self).position() == (old(self).position() + 1) % old(self).symbols().len(),
    {
        let count = self.symbols.len();
        let next = self.index + 1;
        proof {
            let n = count as int;
            let i = self.index as int;
            assert((i + 1) % n == if i + 1 < n { i + 1 } else { 0 }) by (nonlinear_arith)
                requires
                    0 <= i < n,
            ;
        }
        self.index = if next < count {
            next
        } else {
            0
        };
    }

    /// The current symbol, a space, and the label.
    pub fn render(&self) -> (text: String)
        requires
            self.wf(),
        ensures
            text@ == seq![self.symbols()[self.position() as int], ' '] + self.label(),
    {
        symbol_and_label(self.symbols[self.index], &self.label)
    }
}

/// `format!("{} {}", ..)` of a character and a string: the character, a
/// space, and the string.
#[verifier::external_body]
fn symbol_and_label(symbol: char, label: &String) -> (text: String)
    ensures
        text@ == seq![symbol, ' '] + label@,
{
    format!("{} {}", symbol, label)
}

} // verus!
